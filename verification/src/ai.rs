//! The local-model companion's rules: which configurations are acceptable,
//! which part of the conversation is sent along, and how a reply is cleaned
//! before it is shown.
use vstd::prelude::*;
use vstd::string::StrSliceExecFns;
use vstd::string::StringExecFns;

use crate::game::{Chat, ChatView};
use crate::text::{chars_of, take_chars};

verus! {

/// How to reach the local model server.
pub struct Config {
    pub model: String,
    pub port: u16,
    pub timeout_seconds: u64,
}

impl Default for Config {
    fn default() -> (c: Self)
        ensures
            c.model@ == "qwen3:4b"@,
            c.port == 11434,
            c.timeout_seconds == 90,
    {
        Config { model: String::from_str("qwen3:4b"), port: 11434, timeout_seconds: 90 }
    }
}

/// The characters a model name may use: ASCII letters and digits and `-_:./`.
pub open spec fn name_char(c: char) -> bool {
    ||| ('a' <= c <= 'z')
    ||| ('A' <= c <= 'Z')
    ||| ('0' <= c <= '9')
    ||| c == '-' || c == '_' || c == ':' || c == '.' || c == '/'
}

/// `c` with ASCII capitals made small.
pub open spec fn ascii_lower(c: char) -> char {
    if 'A' <= c <= 'Z' { ((c as u32) + 32) as char } else { c }
}

/// `m` names a cloud model: "cloud" occurs in it, in any letter case.
pub open spec fn mentions_cloud(m: Seq<char>) -> bool {
    exists|i: int|
        0 <= i && i + 5 <= m.len() && #[trigger] ascii_lower(m[i]) == 'c' && ascii_lower(m[i + 1]) == 'l'
            && ascii_lower(m[i + 2]) == 'o' && ascii_lower(m[i + 3]) == 'u' && ascii_lower(m[i + 4]) == 'd'
}

/// A model name that can only refer to a downloaded local model.
pub open spec fn local_model(m: Seq<char>) -> bool {
    &&& 1 <= m.len() <= 120
    &&& forall|i: int| 0 <= i < m.len() ==> name_char(#[trigger] m[i])
    &&& !mentions_cloud(m)
}

/// What `Config::validate` accepts.
pub open spec fn config_ok(model: Seq<char>, port: u16, timeout_seconds: u64) -> bool {
    &&& port != 0
    &&& 5 <= timeout_seconds <= 180
    &&& local_model(model)
}

pub open spec fn config_error() -> Seq<char> {
    "Use a downloaded local model, a valid port, and a 5-180 second timeout."@
}

fn is_name_char(c: char) -> (b: bool)
    ensures
        b == name_char(c),
{
    ('a' <= c && c <= 'z') || ('A' <= c && c <= 'Z') || ('0' <= c && c <= '9') || c == '-' || c == '_'
        || c == ':' || c == '.' || c == '/'
}

fn lower(c: char) -> (d: char)
    ensures
        d == ascii_lower(c),
{
    if 'A' <= c && c <= 'Z' {
        let u: u32 = (c as u32) + 32;
        assert(0x61 <= u <= 0x7a);
        if u == 0x61 { 'a' } else if u == 0x62 { 'b' } else if u == 0x63 { 'c' } else if u == 0x64 { 'd' }
        else if u == 0x65 { 'e' } else if u == 0x66 { 'f' } else if u == 0x67 { 'g' } else if u == 0x68 { 'h' }
        else if u == 0x69 { 'i' } else if u == 0x6a { 'j' } else if u == 0x6b { 'k' } else if u == 0x6c { 'l' }
        else if u == 0x6d { 'm' } else if u == 0x6e { 'n' } else if u == 0x6f { 'o' } else if u == 0x70 { 'p' }
        else if u == 0x71 { 'q' } else if u == 0x72 { 'r' } else if u == 0x73 { 's' } else if u == 0x74 { 't' }
        else if u == 0x75 { 'u' } else if u == 0x76 { 'v' } else if u == 0x77 { 'w' } else if u == 0x78 { 'x' }
        else if u == 0x79 { 'y' } else { 'z' }
    } else {
        c
    }
}

fn local_model_name(model: &str) -> (b: bool)
    ensures
        b == local_model(model@),
{
    let cs = chars_of(model);
    let n = cs.len();
    if n < 1 || n > 120 {
        return false;
    }
    let mut i: usize = 0;
    while i < n
        invariant
            n == cs@.len() <= 120,
            cs@ == model@,
            i <= n,
            forall|j: int| 0 <= j < i ==> name_char(#[trigger] cs@[j]),
        decreases n - i,
    {
        if !is_name_char(cs[i]) {
            return false;
        }
        i = i + 1;
    }
    let mut k: usize = 0;
    while k + 5 <= n
        invariant
            n == cs@.len() <= 120,
            k <= n,
            cs@ == model@,
            forall|j: int| 0 <= j < k && j + 5 <= n ==> !(#[trigger] ascii_lower(cs@[j]) == 'c' && ascii_lower(
                cs@[j + 1],
            ) == 'l' && ascii_lower(cs@[j + 2]) == 'o' && ascii_lower(cs@[j + 3]) == 'u' && ascii_lower(
                cs@[j + 4],
            ) == 'd'),
        decreases n - k,
    {
        if lower(cs[k]) == 'c' && lower(cs[k + 1]) == 'l' && lower(cs[k + 2]) == 'o' && lower(cs[k + 3]) == 'u'
            && lower(cs[k + 4]) == 'd' {
            assert(mentions_cloud(model@)) by {
                assert(ascii_lower(cs@[k as int]) == 'c');
            }
            return false;
        }
        k = k + 1;
    }
    true
}

impl Config {
    /// Accepts only a local model name (1 to 120 characters from ASCII
    /// letters, digits and `-_:./`, never mentioning "cloud"), a nonzero
    /// port and a timeout of 5 to 180 seconds.
    pub fn validate(&self) -> (r: Result<(), String>)
        ensures
            r is Ok <==> config_ok(self.model@, self.port, self.timeout_seconds),
            r matches Err(e) ==> e@ == config_error(),
    {
        if self.port == 0 || self.timeout_seconds < 5 || self.timeout_seconds > 180 || !local_model_name(
            self.model.as_str(),
        ) {
            proof { reveal_strlit("Use a downloaded local model, a valid port, and a 5-180 second timeout."); }
            return Err(String::from_str("Use a downloaded local model, a valid port, and a 5-180 second timeout."));
        }
        Ok(())
    }
}

/// The conversation that goes to the model: the last eight entries, oldest
/// first, each cut to its first 600 characters.
pub open spec fn prompt_history(chat: Seq<ChatView>) -> Seq<ChatView> {
    let start = if chat.len() > 8 { chat.len() - 8 } else { 0 };
    Seq::new(
        (chat.len() - start) as nat,
        |i: int|
            ChatView {
                role: chat[start + i].role,
                content: chat[start + i].content.take(
                    if chat[start + i].content.len() < 600 { chat[start + i].content.len() as int } else { 600 },
                ),
            },
    )
}

/// The part of the conversation sent along with a question.
pub fn prompt_history_of(chat: &Vec<Chat>) -> (r: Vec<Chat>)
    ensures
        r@.map_values(|c: Chat| c@) == prompt_history(chat@.map_values(|c: Chat| c@)),
{
    let ghost src = chat@.map_values(|c: Chat| c@);
    let start: usize = if chat.len() > 8 { chat.len() - 8 } else { 0 };
    let mut r: Vec<Chat> = Vec::new();
    let mut i: usize = start;
    while i < chat.len()
        invariant
            start <= i <= chat@.len(),
            start == (if chat@.len() > 8 { chat@.len() - 8 } else { 0 }),
            src == chat@.map_values(|c: Chat| c@),
            r@.len() == i - start,
            forall|j: int| 0 <= j < r@.len() ==> #[trigger] r@[j]@ == prompt_history(src)[j],
        decreases chat@.len() - i,
    {
        let c = &chat[i];
        let role = take_chars(c.role.as_str(), c.role.as_str().unicode_len());
        let content = take_chars(c.content.as_str(), 600);
        proof {
            assert(role@ =~= c.role@);
        }
        r.push(Chat { role, content });
        i = i + 1;
    }
    assert(r@.map_values(|c: Chat| c@) =~= prompt_history(src));
    r
}

/// A control character (general category Cc): U+0000 to U+001F and U+007F
/// to U+009F.
pub open spec fn control(c: char) -> bool {
    (c as u32) <= 0x1f || (0x7f <= (c as u32) && (c as u32) <= 0x9f)
}

/// A character with the Unicode White_Space property, what `str::trim` removes.
pub open spec fn white_space(c: char) -> bool {
    let u = c as u32;
    ||| 0x09 <= u <= 0x0d
    ||| u == 0x20 || u == 0x85 || u == 0xa0 || u == 0x1680
    ||| 0x2000 <= u <= 0x200a
    ||| u == 0x2028 || u == 0x2029 || u == 0x202f || u == 0x205f || u == 0x3000
}

/// `t` without its control characters, line breaks excepted.
pub open spec fn printable(t: Seq<char>) -> Seq<char>
    decreases t.len(),
{
    if t.len() == 0 {
        t
    } else {
        let rest = printable(t.drop_last());
        if control(t.last()) && t.last() != '\n' { rest } else { rest.push(t.last()) }
    }
}

/// The reply as shown: printable, at most 1200 characters.
pub open spec fn cleaned(t: Seq<char>) -> Seq<char> {
    let p = printable(t);
    p.take(if p.len() < 1200 { p.len() as int } else { 1200 })
}

pub open spec fn blank(t: Seq<char>) -> bool {
    forall|i: int| 0 <= i < t.len() ==> white_space(#[trigger] t[i])
}

fn is_control(c: char) -> (b: bool)
    ensures
        b == control(c),
{
    let u = c as u32;
    u <= 0x1f || (0x7f <= u && u <= 0x9f)
}

fn is_white_space(c: char) -> (b: bool)
    ensures
        b == white_space(c),
{
    let u = c as u32;
    (0x09 <= u && u <= 0x0d) || u == 0x20 || u == 0x85 || u == 0xa0 || u == 0x1680 || (0x2000 <= u && u
        <= 0x200a) || u == 0x2028 || u == 0x2029 || u == 0x202f || u == 0x205f || u == 0x3000
}

/// Cleans a model's reply text: control characters other than line breaks
/// are dropped, at most 1200 characters are kept, and a reply that is then
/// blank is refused.
pub fn clean_reply(reply: &str) -> (r: Result<String, String>)
    ensures
        r is Ok <==> !blank(cleaned(reply@)),
        r matches Ok(t) ==> t@ == cleaned(reply@),
        r matches Err(e) ==> e@ == "The model returned an empty reply"@,
{
    let cs = chars_of(reply);
    let mut i: usize = 0;
    let mut all_blank = true;
    let mut kept: Vec<usize> = Vec::new();
    while i < cs.len()
        invariant
            cs@ == reply@,
            i <= cs@.len(),
            printable(cs@.take(i as int)).len() == kept@.len(),
            forall|j: int| 0 <= j < kept@.len() ==> #[trigger] kept@[j] < i && cs@[kept@[j] as int]
                == printable(cs@.take(i as int))[j],
        decreases cs@.len() - i,
    {
        let c = cs[i];
        proof {
            assert(cs@.take(i + 1).drop_last() =~= cs@.take(i as int));
        }
        if !(is_control(c) && c != '\n') {
            kept.push(i);
        }
        i = i + 1;
    }
    assert(cs@.take(cs@.len() as int) =~= cs@);
    let total = kept.len();
    let n: usize = if total < 1200 { total } else { 1200 };
    let mut out = String::new();
    let mut j: usize = 0;
    let m = cs.len();
    while j < n
        invariant
            cs@ == reply@,
            m == cs@.len(),
            n <= kept@.len() == printable(reply@).len(),
            n == (if printable(reply@).len() < 1200 { printable(reply@).len() } else { 1200 }),
            forall|k: int| 0 <= k < kept@.len() ==> #[trigger] kept@[k] < cs@.len() && cs@[kept@[k] as int]
                == printable(reply@)[k],
            j <= n,
            out@ == cleaned(reply@).take(j as int),
            all_blank == blank(out@),
        decreases n - j,
    {
        let k = kept[j];
        assert(k < cs@.len());
        let c = cs[k];
        let ghost before = out@;
        out.append(reply.substring_char(k, k + 1));
        proof {
            assert(out@ =~= before.push(c));
            assert(blank(out@) == (blank(before) && white_space(c))) by {
                assert(out@[before.len() as int] == c);
                assert(forall|i: int| 0 <= i < before.len() ==> out@[i] == before[i]);
            }
        }
        if !is_white_space(c) {
            all_blank = false;
        }
        proof {
            assert(out@ =~= cleaned(reply@).take(j + 1));
        }
        j = j + 1;
    }
    assert(out@ =~= cleaned(reply@));
    if all_blank {
        proof { reveal_strlit("The model returned an empty reply"); }
        return Err(String::from_str("The model returned an empty reply"));
    }
    Ok(out)
}


/// What `serde_json::from_str` makes of the model server's answer `s`:
/// `None` when it is not JSON, else the string at `message.content`, if that
/// is a string.
pub uninterp spec fn envelope_content(s: Seq<char>) -> Option<Option<Seq<char>>>;

/// What `serde_json::from_str` makes of the reply object `t`: the string in
/// its `reply` field, or `None` when `t` is not a JSON object with one.
pub uninterp spec fn reply_field(t: Seq<char>) -> Option<Seq<char>>;

pub open spec fn texts_of(o: Option<Option<String>>) -> Option<Option<Seq<char>>> {
    match o {
        None => None,
        Some(None) => Some(None),
        Some(Some(t)) => Some(Some(t@)),
    }
}

/// Decodes the server's answer with `serde_json::from_str` into a JSON value
/// and reads `message.content` as a string. The contract only names the
/// result (`envelope_content`); it states nothing about JSON syntax.
#[verifier::external_body]
fn read_envelope(s: &str) -> (r: Option<Option<String>>)
    ensures
        texts_of(r) == envelope_content(s@),
{
    match serde_json::from_str::<serde_json::Value>(s) {
        Err(_) => None,
        Ok(v) => match v["message"]["content"].as_str() {
            Some(t) => Some(Some(t.to_string())),
            None => Some(None),
        },
    }
}

/// Decodes the model's reply object with `serde_json::from_str` into a JSON
/// value and reads its `reply` field as a string. As a JSON value is read, a
/// one-element array is not taken as a reply, and when `reply` appears twice
/// the last one counts. The contract only names the result (`reply_field`).
#[verifier::external_body]
fn read_reply(t: &str) -> (r: Option<String>)
    ensures
        match r {
            None => reply_field(t@) is None,
            Some(x) => reply_field(t@) == Some(x@),
        },
{
    match serde_json::from_str::<serde_json::Value>(t) {
        Err(_) => None,
        Ok(v) => match v["reply"].as_str() {
            Some(x) => Some(x.to_string()),
            None => None,
        },
    }
}

/// What becomes of the model server's answer `s`: an error for each way it
/// can be malformed, else the cleaned reply when it is not blank.
pub open spec fn reply_outcome(s: Seq<char>) -> Result<Seq<char>, Seq<char>> {
    match envelope_content(s) {
        None => Err("Model server returned invalid JSON"@),
        Some(None) => Err("Model server omitted message.content"@),
        Some(Some(t)) => match reply_field(t) {
            None => Err("Model reply did not match the requested schema; try again"@),
            Some(rep) => if blank(cleaned(rep)) {
                Err("The model returned an empty reply"@)
            } else {
                Ok(cleaned(rep))
            },
        },
    }
}

/// Reads the model server's answer: the JSON envelope, its
/// `message.content`, the reply object inside it, and the cleaned reply.
/// Invalid or empty output is rejected with a message saying why.
pub fn parse_response(s: &str) -> (r: Result<String, String>)
    ensures
        match r {
            Ok(x) => reply_outcome(s@) == Ok::<Seq<char>, Seq<char>>(x@),
            Err(e) => reply_outcome(s@) == Err::<Seq<char>, Seq<char>>(e@),
        },
{
    let content = read_envelope(s);
    match content {
        None => {
            proof { reveal_strlit("Model server returned invalid JSON"); }
            Err(String::from_str("Model server returned invalid JSON"))
        },
        Some(None) => {
            proof { reveal_strlit("Model server omitted message.content"); }
            Err(String::from_str("Model server omitted message.content"))
        },
        Some(Some(text)) => match read_reply(text.as_str()) {
            None => {
                proof { reveal_strlit("Model reply did not match the requested schema; try again"); }
                Err(String::from_str("Model reply did not match the requested schema; try again"))
            },
            Some(rep) => clean_reply(rep.as_str()),
        },
    }
}

} // verus!
