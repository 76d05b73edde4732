//! Small JSON objects: a mapping from string keys to string or boolean
//! values, with a verified encoder and decoder.
//!
//! The codec covers exactly the shape of object that travels in request and
//! response bodies here: one flat object whose values are strings or booleans.
//! The encoder emits the canonical form (no whitespace, `"` and `\` escaped
//! with a backslash) and the decoder accepts that same form, rejecting
//! anything else as malformed.

use vstd::prelude::*;

verus! {

/// Mathematical model of a JSON value: the character sequence of a string,
/// or a boolean.
pub enum ValueModel {
    Text(Seq<char>),
    Flag(bool),
}

/// A JSON value as held at run time: a string or a boolean.
#[derive(Debug, Clone, PartialEq, Eq)]
pub enum JsonValue {
    Text(String),
    Flag(bool),
}

impl View for JsonValue {
    type V = ValueModel;

    open spec fn view(&self) -> ValueModel {
        match self {
            JsonValue::Text(s) => ValueModel::Text(s@),
            JsonValue::Flag(b) => ValueModel::Flag(*b),
        }
    }
}

/// The entries of an object, in insertion order.
pub type EntriesModel = Seq<(Seq<char>, ValueModel)>;

/// No two entries share a key.
pub open spec fn distinct_keys(es: EntriesModel) -> bool {
    forall|i: int, j: int| 0 <= i < j < es.len() ==> es[i].0 != es[j].0
}

/// A JSON object: unique string keys mapped to values, in insertion order.
#[derive(Debug, Clone, PartialEq, Eq)]
pub struct JsonMap {
    entries: Vec<(String, JsonValue)>,
}

impl View for JsonMap {
    type V = EntriesModel;

    closed spec fn view(&self) -> EntriesModel {
        entries_model(self.entries@)
    }
}

/// Compares two strings character by character.
pub fn str_eq(a: &str, b: &str) -> (r: bool)
    ensures
        r == (a@ == b@),
{
    let na = a.unicode_len();
    let nb = b.unicode_len();
    if na != nb {
        return false;
    }
    let mut i: usize = 0;
    while i < na
        invariant
            na == a@.len(),
            na == b@.len(),
            i <= na,
            forall|k: int| 0 <= k < i ==> a@[k] == b@[k],
        decreases na - i,
    {
        if a.get_char(i) != b.get_char(i) {
            return false;
        }
        i += 1;
    }
    proof {
        assert(a@ =~= b@);
    }
    true
}

/// How one character of string content is written out: `"` and `\` get a
/// leading backslash, every other character stands for itself.
pub open spec fn esc_char(c: char) -> Seq<char> {
    if c == '"' || c == '\\' {
        seq!['\\', c]
    } else {
        seq![c]
    }
}

/// The encoded content of a string (without the surrounding quotes).
pub open spec fn enc_text(s: Seq<char>) -> Seq<char>
    decreases s.len(),
{
    if s.len() == 0 {
        Seq::empty()
    } else {
        esc_char(s[0]) + enc_text(s.drop_first())
    }
}

/// The encoding of one value.
pub open spec fn enc_value(v: ValueModel) -> Seq<char> {
    match v {
        ValueModel::Text(s) => seq!['"'] + enc_text(s) + seq!['"'],
        ValueModel::Flag(b) => if b {
            seq!['t', 'r', 'u', 'e']
        } else {
            seq!['f', 'a', 'l', 's', 'e']
        },
    }
}

/// The encoding of one `"key":value` entry.
pub open spec fn enc_entry(e: (Seq<char>, ValueModel)) -> Seq<char> {
    seq!['"'] + enc_text(e.0) + seq!['"', ':'] + enc_value(e.1)
}

/// The comma-separated encodings of a run of entries.
pub open spec fn enc_entries(es: EntriesModel) -> Seq<char>
    decreases es.len(),
{
    if es.len() == 0 {
        Seq::empty()
    } else if es.len() == 1 {
        enc_entry(es[0])
    } else {
        enc_entry(es[0]) + seq![','] + enc_entries(es.drop_first())
    }
}

/// The full encoding of an object: the entries between braces.
pub open spec fn spec_encode(es: EntriesModel) -> Seq<char> {
    seq!['{'] + enc_entries(es) + seq!['}']
}

proof fn lemma_enc_text_snoc(s: Seq<char>, c: char)
    ensures
        enc_text(s.push(c)) == enc_text(s) + esc_char(c),
    decreases s.len(),
{
    if s.len() == 0 {
        assert(s.push(c)[0] == c);
        assert(s.push(c).drop_first() =~= Seq::<char>::empty());
        assert(enc_text(s.push(c)) == esc_char(c) + enc_text(Seq::<char>::empty()));
        assert(esc_char(c) + Seq::<char>::empty() =~= esc_char(c));
        assert(enc_text(s) + esc_char(c) =~= esc_char(c));
    } else {
        lemma_enc_text_snoc(s.drop_first(), c);
        assert(s.push(c).drop_first() =~= s.drop_first().push(c));
        assert(enc_text(s.push(c)) =~= enc_text(s) + esc_char(c));
    }
}

proof fn lemma_enc_entries_snoc(es: EntriesModel, e: (Seq<char>, ValueModel))
    ensures
        enc_entries(es.push(e)) == if es.len() == 0 {
            enc_entry(e)
        } else {
            enc_entries(es) + seq![','] + enc_entries(seq![e])
        },
    decreases es.len(),
{
    if es.len() == 0 {
        assert(es.push(e)[0] == e);
    } else if es.len() == 1 {
        assert(es.push(e).drop_first() =~= seq![e]);
        assert(enc_entries(es.push(e)) =~= enc_entries(es) + seq![','] + enc_entries(seq![e]));
    } else {
        lemma_enc_entries_snoc(es.drop_first(), e);
        assert(es.push(e).drop_first() =~= es.drop_first().push(e));
        assert(enc_entries(es.push(e)) =~= enc_entries(es) + seq![','] + enc_entries(seq![e]));
    }
}

/// Appends the escaped content of `s` to `out`.
fn append_escaped(out: &mut String, s: &str)
    ensures
        final(out)@ == old(out)@ + enc_text(s@),
{
    let n = s.unicode_len();
    let mut j: usize = 0;
    while j < n
        invariant
            n == s@.len(),
            j <= n,
            out@ == old(out)@ + enc_text(s@.take(j as int)),
        decreases n - j,
    {
        let c = s.get_char(j);
        if c == '"' {
            out.append("\\\"");
        } else if c == '\\' {
            out.append("\\\\");
        } else {
            out.append(s.substring_char(j, j + 1));
        }
        proof {
            reveal_strlit("\\\"");
            reveal_strlit("\\\\");
            assert(s@.subrange(j as int, j as int + 1) =~= seq![s@[j as int]]);
            lemma_enc_text_snoc(s@.take(j as int), s@[j as int]);
            assert(s@.take(j as int).push(s@[j as int]) =~= s@.take(j as int + 1));
            assert(out@ =~= old(out)@ + enc_text(s@.take(j as int + 1)));
        }
        j += 1;
    }
    proof {
        assert(s@.take(n as int) =~= s@);
    }
}

/// What goes wrong when text is decoded.
#[derive(Debug, Clone, Copy, PartialEq, Eq)]
pub enum JsonError {
    /// The text is not a canonical encoding of an object.
    Malformed,
    /// The text parses, but two entries share a key.
    DuplicateKey,
}

/// Parses string content after an opening quote. Returns the decoded content
/// and the characters after the closing quote.
pub open spec fn parse_text(s: Seq<char>) -> Option<(Seq<char>, Seq<char>)>
    decreases s.len(),
{
    if s.len() == 0 {
        None
    } else if s[0] == '"' {
        Some((Seq::empty(), s.drop_first()))
    } else if s[0] == '\\' {
        if s.len() >= 2 && (s[1] == '"' || s[1] == '\\') {
            match parse_text(s.skip(2)) {
                Some(p) => Some((seq![s[1]] + p.0, p.1)),
                None => None,
            }
        } else {
            None
        }
    } else {
        match parse_text(s.drop_first()) {
            Some(p) => Some((seq![s[0]] + p.0, p.1)),
            None => None,
        }
    }
}

/// Parses one value (a quoted string, `true` or `false`). Returns the value
/// and the characters after it.
pub open spec fn parse_value(s: Seq<char>) -> Option<(ValueModel, Seq<char>)> {
    if s.len() > 0 && s[0] == '"' {
        match parse_text(s.drop_first()) {
            Some(p) => Some((ValueModel::Text(p.0), p.1)),
            None => None,
        }
    } else if s.len() >= 4 && s.subrange(0, 4) == seq!['t', 'r', 'u', 'e'] {
        Some((ValueModel::Flag(true), s.skip(4)))
    } else if s.len() >= 5 && s.subrange(0, 5) == seq!['f', 'a', 'l', 's', 'e'] {
        Some((ValueModel::Flag(false), s.skip(5)))
    } else {
        None
    }
}

proof fn lemma_parse_text_shrinks(s: Seq<char>)
    ensures
        parse_text(s) matches Some(p) ==> p.1.len() < s.len(),
    decreases s.len(),
{
    if s.len() == 0 {
    } else if s[0] == '"' {
    } else if s[0] == '\\' {
        if s.len() >= 2 && (s[1] == '"' || s[1] == '\\') {
            lemma_parse_text_shrinks(s.skip(2));
        }
    } else {
        lemma_parse_text_shrinks(s.drop_first());
    }
}

proof fn lemma_parse_value_shrinks(s: Seq<char>)
    ensures
        parse_value(s) matches Some(p) ==> p.1.len() < s.len(),
{
    if s.len() > 0 && s[0] == '"' {
        lemma_parse_text_shrinks(s.drop_first());
    }
}

/// Parses a run of `"key":value` entries up to and including the closing
/// brace. Returns the entries and the characters after the brace.
pub open spec fn parse_entries(s: Seq<char>) -> Option<(EntriesModel, Seq<char>)>
    decreases s.len(),
    via parse_entries_decreases
{
    if s.len() == 0 || s[0] != '"' {
        None
    } else {
        match parse_text(s.drop_first()) {
            None => None,
            Some(kp) => if kp.1.len() == 0 || kp.1[0] != ':' {
                None
            } else {
                match parse_value(kp.1.drop_first()) {
                    None => None,
                    Some(vp) => if vp.1.len() > 0 && vp.1[0] == ',' {
                        match parse_entries(vp.1.drop_first()) {
                            None => None,
                            Some(ep) => Some((seq![(kp.0, vp.0)] + ep.0, ep.1)),
                        }
                    } else if vp.1.len() > 0 && vp.1[0] == '}' {
                        Some((seq![(kp.0, vp.0)], vp.1.drop_first()))
                    } else {
                        None
                    },
                }
            },
        }
    }
}

#[via_fn]
proof fn parse_entries_decreases(s: Seq<char>) {
    if s.len() > 0 && s[0] == '"' {
        lemma_parse_text_shrinks(s.drop_first());
        match parse_text(s.drop_first()) {
            Some(kp) => {
                if kp.1.len() > 0 && kp.1[0] == ':' {
                    lemma_parse_value_shrinks(kp.1.drop_first());
                }
            },
            None => {},
        }
    }
}

/// Parses a whole object: braces around comma-separated entries, nothing
/// before or after.
pub open spec fn spec_parse(s: Seq<char>) -> Option<EntriesModel> {
    if s.len() >= 1 && s[0] == '{' {
        if s.len() == 2 && s[1] == '}' {
            Some(Seq::empty())
        } else {
            match parse_entries(s.drop_first()) {
                Some(ep) => if ep.1.len() == 0 {
                    Some(ep.0)
                } else {
                    None
                },
                None => None,
            }
        }
    } else {
        None
    }
}

/// What decoding yields: the parsed entries, provided their keys are unique.
pub open spec fn spec_decode(s: Seq<char>) -> Option<EntriesModel> {
    match spec_parse(s) {
        Some(es) => if distinct_keys(es) {
            Some(es)
        } else {
            None
        },
        None => None,
    }
}

/// The entries of a key-value vector, as the model sees them.
pub open spec fn entries_model(es: Seq<(String, JsonValue)>) -> EntriesModel {
    es.map_values(|e: (String, JsonValue)| (e.0@, e.1@))
}

proof fn lemma_match_text_assoc(a: Seq<char>, b: Seq<char>, t: Option<(Seq<char>, Seq<char>)>)
    ensures
        (match t {
            Some(p) => Some(((a + b) + p.0, p.1)),
            None => None::<(Seq<char>, Seq<char>)>,
        }) == (match t {
            Some(p) => Some((a + (b + p.0), p.1)),
            None => None::<(Seq<char>, Seq<char>)>,
        }),
{
    match t {
        Some(p) => {
            assert((a + b) + p.0 =~= a + (b + p.0));
        },
        None => {},
    }
}

proof fn lemma_match_entries_assoc(a: EntriesModel, b: EntriesModel, t: Option<(EntriesModel, Seq<char>)>)
    ensures
        (match t {
            Some(p) => Some(((a + b) + p.0, p.1)),
            None => None::<(EntriesModel, Seq<char>)>,
        }) == (match t {
            Some(p) => Some((a + (b + p.0), p.1)),
            None => None::<(EntriesModel, Seq<char>)>,
        }),
{
    match t {
        Some(p) => {
            assert((a + b) + p.0 =~= a + (b + p.0));
        },
        None => {},
    }
}

/// Runs the string-content parser from `start`, returning the content and
/// the position after the closing quote.
fn parse_text_at(s: &str, start: usize) -> (r: Option<(String, usize)>)
    requires
        start <= s@.len(),
    ensures
        match parse_text(s@.skip(start as int)) {
            Some(p) => r matches Some(q) && q.0@ == p.0 && start <= q.1 <= s@.len() && p.1
                == s@.skip(q.1 as int),
            None => r is None,
        },
{
    let n = s.unicode_len();
    let mut out = String::new();
    let mut j: usize = start;
    loop
        invariant
            n == s@.len(),
            start <= j <= n,
            parse_text(s@.skip(start as int)) == (match parse_text(s@.skip(j as int)) {
                Some(p) => Some((out@ + p.0, p.1)),
                None => None::<(Seq<char>, Seq<char>)>,
            }),
        decreases n - j,
    {
        if j >= n {
            proof {
                assert(s@.skip(j as int).len() == 0);
            }
            return None;
        }
        let c = s.get_char(j);
        proof {
            assert(s@.skip(j as int)[0] == s@[j as int]);
        }
        if c == '"' {
            proof {
                assert(s@.skip(j as int).drop_first() =~= s@.skip(j as int + 1));
                assert(out@ + Seq::<char>::empty() =~= out@);
            }
            return Some((out, j + 1));
        } else if c == '\\' {
            if j + 1 >= n {
                proof {
                    assert(s@.skip(j as int).len() < 2);
                }
                return None;
            }
            let c2 = s.get_char(j + 1);
            proof {
                assert(s@.skip(j as int)[1] == s@[j as int + 1]);
            }
            if c2 == '"' || c2 == '\\' {
                let ghost out_prev = out@;
                if c2 == '"' {
                    out.append("\"");
                } else {
                    out.append("\\");
                }
                proof {
                    reveal_strlit("\"");
                    reveal_strlit("\\");
                    assert(out@ =~= out_prev + seq![c2]);
                    assert(s@.skip(j as int).skip(2) =~= s@.skip(j as int + 2));
                    lemma_match_text_assoc(out_prev, seq![c2], parse_text(s@.skip(j as int + 2)));
                }
                j += 2;
            } else {
                return None;
            }
        } else {
            let ghost out_prev = out@;
            out.append(s.substring_char(j, j + 1));
            proof {
                assert(s@.subrange(j as int, j as int + 1) =~= seq![s@[j as int]]);
                assert(out@ =~= out_prev + seq![c]);
                assert(s@.skip(j as int).drop_first() =~= s@.skip(j as int + 1));
                lemma_match_text_assoc(out_prev, seq![c], parse_text(s@.skip(j as int + 1)));
            }
            j += 1;
        }
    }
}

/// Runs the value parser from `start`, returning the value and the position
/// after it.
fn parse_value_at(s: &str, start: usize) -> (r: Option<(JsonValue, usize)>)
    requires
        start <= s@.len(),
    ensures
        match parse_value(s@.skip(start as int)) {
            Some(p) => r matches Some(q) && q.0@ == p.0 && start <= q.1 <= s@.len() && p.1
                == s@.skip(q.1 as int),
            None => r is None,
        },
{
    let n = s.unicode_len();
    let ghost t = s@.skip(start as int);
    if start < n && s.get_char(start) == '"' {
        proof {
            assert(t[0] == s@[start as int]);
            assert(t.drop_first() =~= s@.skip(start as int + 1));
        }
        match parse_text_at(s, start + 1) {
            Some(p) => Some((JsonValue::Text(p.0), p.1)),
            None => None,
        }
    } else if n - start >= 4 && s.get_char(start) == 't' && s.get_char(start + 1) == 'r'
        && s.get_char(start + 2) == 'u' && s.get_char(start + 3) == 'e' {
        proof {
            assert(t.subrange(0, 4) =~= seq!['t', 'r', 'u', 'e']);
            assert(t.skip(4) =~= s@.skip(start as int + 4));
        }
        Some((JsonValue::Flag(true), start + 4))
    } else if n - start >= 5 && s.get_char(start) == 'f' && s.get_char(start + 1) == 'a'
        && s.get_char(start + 2) == 'l' && s.get_char(start + 3) == 's'
        && s.get_char(start + 4) == 'e' {
        proof {
            assert(t.subrange(0, 4)[0] == s@[start as int]);
            assert(t.subrange(0, 5) =~= seq!['f', 'a', 'l', 's', 'e']);
            assert(t.skip(5) =~= s@.skip(start as int + 5));
        }
        Some((JsonValue::Flag(false), start + 5))
    } else {
        proof {
            if t.len() >= 4 {
                assert(t.subrange(0, 4)[0] == s@[start as int]);
                assert(t.subrange(0, 4)[1] == s@[start as int + 1]);
                assert(t.subrange(0, 4)[2] == s@[start as int + 2]);
                assert(t.subrange(0, 4)[3] == s@[start as int + 3]);
            }
            if t.len() >= 5 {
                assert(t.subrange(0, 5)[0] == s@[start as int]);
                assert(t.subrange(0, 5)[1] == s@[start as int + 1]);
                assert(t.subrange(0, 5)[2] == s@[start as int + 2]);
                assert(t.subrange(0, 5)[3] == s@[start as int + 3]);
                assert(t.subrange(0, 5)[4] == s@[start as int + 4]);
            }
        }
        None
    }
}

proof fn lemma_parse_entries_unfold(s: Seq<char>, i: int, j: int, k2: int, k: Seq<char>, v: ValueModel)
    requires
        0 <= i < s.len(),
        s[i] == '"',
        i + 1 <= j <= s.len(),
        parse_text(s.skip(i + 1)) == Some((k, s.skip(j))),
        j < s.len(),
        s[j] == ':',
        j + 1 <= k2 <= s.len(),
        parse_value(s.skip(j + 1)) == Some((v, s.skip(k2))),
    ensures
        k2 < s.len() && s[k2] == ',' ==> parse_entries(s.skip(i)) == (match parse_entries(
            s.skip(k2 + 1),
        ) {
            Some(p) => Some((seq![(k, v)] + p.0, p.1)),
            None => None::<(EntriesModel, Seq<char>)>,
        }),
        k2 < s.len() && s[k2] == '}' ==> parse_entries(s.skip(i)) == Some(
            (seq![(k, v)], s.skip(k2 + 1)),
        ),
        (k2 >= s.len() || (s[k2] != ',' && s[k2] != '}')) ==> parse_entries(s.skip(i))
            is None,
{
    assert(s.skip(i)[0] == s[i]);
    assert(s.skip(i).drop_first() =~= s.skip(i + 1));
    assert(s.skip(j).len() == s.len() - j);
    assert(s.skip(j)[0] == s[j]);
    assert(s.skip(j).drop_first() =~= s.skip(j + 1));
    assert(s.skip(k2).len() == s.len() - k2);
    if k2 < s.len() {
        assert(s.skip(k2)[0] == s[k2]);
        assert(s.skip(k2).drop_first() =~= s.skip(k2 + 1));
    }
}

/// Scans a key-value vector for two entries sharing a key.
fn find_dup(entries: &Vec<(String, JsonValue)>) -> (r: bool)
    ensures
        r == !distinct_keys(entries_model(entries@)),
{
    let m = entries.len();
    let ghost es = entries_model(entries@);
    let mut a: usize = 0;
    while a < m
        invariant
            m == entries.len(),
            es == entries_model(entries@),
            a <= m,
            forall|p: int, q: int| 0 <= p < q < m && p < a ==> es[p].0 != es[q].0,
        decreases m - a,
    {
        let mut b: usize = a + 1;
        while b < m
            invariant
                m == entries.len(),
                es == entries_model(entries@),
                a < m,
                a < b <= m,
                forall|q: int| a < q < b ==> es[a as int].0 != es[q].0,
            decreases m - b,
        {
            if str_eq(entries[a].0.as_str(), entries[b].0.as_str()) {
                assert(es[a as int].0 == es[b as int].0);
                return true;
            }
            b += 1;
        }
        a += 1;
    }
    false
}

/// Decodes canonical JSON text into an object.
///
/// Succeeds exactly on the texts the parser accepts whose keys are unique;
/// reports which of the two requirements failed otherwise.
pub fn decode(s: &str) -> (r: Result<JsonMap, JsonError>)
    ensures
        match r {
            Ok(m) => spec_parse(s@) == Some(m@) && distinct_keys(m@),
            Err(JsonError::Malformed) => spec_parse(s@) is None,
            Err(JsonError::DuplicateKey) => (spec_parse(s@) matches Some(es)
                && !distinct_keys(es)),
        },
        r matches Ok(m) ==> spec_decode(s@) == Some(m@),
        r is Err ==> spec_decode(s@) is None,
{
    let n = s.unicode_len();
    if n < 2 || s.get_char(0) != '{' {
        proof {
            if n >= 1 && s@[0] == '{' {
                assert(s@.skip(1).len() == 0);
            }
        }
        return Err(JsonError::Malformed);
    }
    if s.get_char(1) == '}' {
        if n == 2 {
            let m = JsonMap::new();
            proof {
                assert(spec_parse(s@) == Some(m@));
            }
            return Ok(m);
        } else {
            proof {
                assert(s@.skip(1)[0] == s@[1]);
            }
            return Err(JsonError::Malformed);
        }
    }
    if s.get_char(1) != '"' {
        proof {
            assert(s@.skip(1)[0] == s@[1]);
        }
        return Err(JsonError::Malformed);
    }
    let mut entries: Vec<(String, JsonValue)> = Vec::new();
    let mut i: usize = 1;
    loop
        invariant
            n == s@.len(),
            n >= 2,
            s@[0] == '{',
            s@[1] == '"',
            1 <= i <= n,
            parse_entries(s@.skip(1)) == (match parse_entries(s@.skip(i as int)) {
                Some(p) => Some((entries_model(entries@) + p.0, p.1)),
                None => None::<(EntriesModel, Seq<char>)>,
            }),
        decreases n - i,
    {
        let ghost done = entries_model(entries@);
        if i >= n || s.get_char(i) != '"' {
            proof {
                if i < n {
                    assert(s@.skip(i as int)[0] == s@[i as int]);
                }
            }
            return Err(JsonError::Malformed);
        }
        proof {
            assert(s@.skip(i as int)[0] == s@[i as int]);
            assert(s@.skip(i as int).drop_first() =~= s@.skip(i as int + 1));
        }
        let (key, j) = match parse_text_at(s, i + 1) {
            Some(p) => p,
            None => {
                return Err(JsonError::Malformed);
            },
        };
        if j >= n || s.get_char(j) != ':' {
            proof {
                assert(s@.skip(j as int).len() == n - j);
                if j < n {
                    assert(s@.skip(j as int)[0] == s@[j as int]);
                }
            }
            return Err(JsonError::Malformed);
        }
        let (val, k2) = match parse_value_at(s, j + 1) {
            Some(p) => p,
            None => {
                proof {
                    assert(s@.skip(j as int)[0] == s@[j as int]);
                    assert(s@.skip(j as int).drop_first() =~= s@.skip(j as int + 1));
                }
                return Err(JsonError::Malformed);
            },
        };
        proof {
            lemma_parse_entries_unfold(s@, i as int, j as int, k2 as int, key@, val@);
        }
        if k2 < n && s.get_char(k2) == ',' {
            entries.push((key, val));
            proof {
                assert(entries_model(entries@) =~= done + seq![(key@, val@)]);
                lemma_match_entries_assoc(
                    done,
                    seq![(key@, val@)],
                    parse_entries(s@.skip(k2 as int + 1)),
                );
            }
            i = k2 + 1;
        } else if k2 < n && s.get_char(k2) == '}' {
            entries.push((key, val));
            proof {
                assert(entries_model(entries@) =~= done + seq![(key@, val@)]);
            }
            if k2 + 1 == n {
                proof {
                    assert(s@.skip(k2 as int + 1).len() == 0);
                    assert(parse_entries(s@.skip(1)) == Some(
                        (entries_model(entries@), s@.skip(k2 as int + 1)),
                    ));
                }
                if find_dup(&entries) {
                    return Err(JsonError::DuplicateKey);
                }
                let m = JsonMap { entries };
                proof {
                    assert(spec_parse(s@) == Some(m@));
                }
                return Ok(m);
            } else {
                proof {
                    assert(s@.skip(k2 as int + 1).len() > 0);
                }
                return Err(JsonError::Malformed);
            }
        } else {
            return Err(JsonError::Malformed);
        }
    }
}

proof fn lemma_parse_text_of_enc(s: Seq<char>, rest: Seq<char>)
    ensures
        parse_text(enc_text(s) + seq!['"'] + rest) == Some((s, rest)),
    decreases s.len(),
{
    let arg = enc_text(s) + seq!['"'] + rest;
    if s.len() == 0 {
        assert(arg[0] == '"');
        assert(arg.drop_first() =~= rest);
    } else {
        let c = s[0];
        let s2 = s.drop_first();
        assert(enc_text(s) == esc_char(c) + enc_text(s2));
        lemma_parse_text_of_enc(s2, rest);
        if c == '"' || c == '\\' {
            assert(esc_char(c) == seq!['\\', c]);
            assert(arg[0] == '\\');
            assert(arg.len() >= 2);
            assert(arg[1] == c);
            assert(arg.skip(2) =~= enc_text(s2) + seq!['"'] + rest);
            assert(seq![c] + s2 =~= s);
        } else {
            assert(esc_char(c) == seq![c]);
            assert(arg[0] == c);
            assert(arg.drop_first() =~= enc_text(s2) + seq!['"'] + rest);
            assert(seq![c] + s2 =~= s);
        }
    }
}

proof fn lemma_parse_value_of_enc(v: ValueModel, rest: Seq<char>)
    ensures
        parse_value(enc_value(v) + rest) == Some((v, rest)),
{
    let arg = enc_value(v) + rest;
    match v {
        ValueModel::Text(s) => {
            assert(arg[0] == '"');
            assert(arg.drop_first() =~= enc_text(s) + seq!['"'] + rest);
            lemma_parse_text_of_enc(s, rest);
        },
        ValueModel::Flag(b) => {
            if b {
                assert(arg[0] == 't');
                assert(arg.len() >= 4);
                assert(arg.subrange(0, 4) =~= seq!['t', 'r', 'u', 'e']);
                assert(arg.skip(4) =~= rest);
            } else {
                assert(arg[0] == 'f');
                if arg.len() >= 4 {
                    assert(arg.subrange(0, 4)[0] == 'f');
                }
                assert(arg.len() >= 5);
                assert(arg.subrange(0, 5) =~= seq!['f', 'a', 'l', 's', 'e']);
                assert(arg.skip(5) =~= rest);
            }
        },
    }
}

proof fn lemma_parse_entries_of_enc(es: EntriesModel, rest: Seq<char>)
    requires
        es.len() >= 1,
    ensures
        parse_entries(enc_entries(es) + seq!['}'] + rest) == Some((es, rest)),
    decreases es.len(),
{
    let arg = enc_entries(es) + seq!['}'] + rest;
    let e = es[0];
    assert(enc_entry(e) == seq!['"'] + enc_text(e.0) + seq!['"', ':'] + enc_value(e.1));
    if es.len() == 1 {
        assert(enc_entries(es) == enc_entry(e));
        let r1 = seq![':'] + enc_value(e.1) + seq!['}'] + rest;
        let r2 = seq!['}'] + rest;
        assert(arg[0] == '"');
        assert(arg.drop_first() =~= enc_text(e.0) + seq!['"'] + r1);
        lemma_parse_text_of_enc(e.0, r1);
        assert(r1[0] == ':');
        assert(r1.drop_first() =~= enc_value(e.1) + r2);
        lemma_parse_value_of_enc(e.1, r2);
        assert(r2[0] == '}');
        assert(r2.drop_first() =~= rest);
        assert(seq![(e.0, e.1)] =~= es);
    } else {
        let es2 = es.drop_first();
        assert(enc_entries(es) == enc_entry(e) + seq![','] + enc_entries(es2));
        let tail = seq![','] + enc_entries(es2) + seq!['}'] + rest;
        let r1 = seq![':'] + enc_value(e.1) + tail;
        assert(arg[0] == '"');
        assert(arg.drop_first() =~= enc_text(e.0) + seq!['"'] + r1);
        lemma_parse_text_of_enc(e.0, r1);
        assert(r1[0] == ':');
        assert(r1.drop_first() =~= enc_value(e.1) + tail);
        lemma_parse_value_of_enc(e.1, tail);
        assert(tail[0] == ',');
        assert(tail.drop_first() =~= enc_entries(es2) + seq!['}'] + rest);
        lemma_parse_entries_of_enc(es2, rest);
        assert(seq![(e.0, e.1)] + es2 =~= es);
    }
}

/// Round trip: the parser maps the canonical encoding of any run of entries
/// back to exactly those entries, and when the keys are unique the decoder
/// accepts the encoding outright. Key order and values come back unchanged.
pub proof fn lemma_encode_then_decode(es: EntriesModel)
    ensures
        spec_parse(spec_encode(es)) == Some(es),
        distinct_keys(es) ==> spec_decode(spec_encode(es)) == Some(es),
{
    let s = spec_encode(es);
    if es.len() == 0 {
        assert(enc_entries(es) == Seq::<char>::empty());
        assert(s =~= seq!['{', '}']);
        assert(s.len() == 2 && s[0] == '{' && s[1] == '}');
    } else {
        assert(s[0] == '{');
        assert(enc_entry(es[0])[0] == '"');
        assert(s[1] == '"');
        lemma_parse_entries_of_enc(es, Seq::empty());
        assert(s.drop_first() =~= enc_entries(es) + seq!['}'] + Seq::<char>::empty());
    }
}

/// What `insert` does to the entries: replaces the value of the first entry
/// with the given key, or appends a new entry when the key is absent.
pub open spec fn spec_insert(es: EntriesModel, k: Seq<char>, v: ValueModel) -> EntriesModel
    decreases es.len(),
{
    if es.len() == 0 {
        seq![(k, v)]
    } else if es[0].0 == k {
        seq![(k, v)] + es.drop_first()
    } else {
        seq![es[0]] + spec_insert(es.drop_first(), k, v)
    }
}

/// What `get` returns: the value of the first entry with the given key.
pub open spec fn spec_get(es: EntriesModel, k: Seq<char>) -> Option<ValueModel>
    decreases es.len(),
{
    if es.len() == 0 {
        None
    } else if es[0].0 == k {
        Some(es[0].1)
    } else {
        spec_get(es.drop_first(), k)
    }
}

proof fn lemma_spec_insert_found(es: EntriesModel, k: Seq<char>, v: ValueModel, i: int)
    requires
        0 <= i < es.len(),
        es[i].0 == k,
        forall|j: int| 0 <= j < i ==> es[j].0 != k,
    ensures
        spec_insert(es, k, v) == es.update(i, (k, v)),
    decreases i,
{
    if i == 0 {
        assert(seq![(k, v)] + es.drop_first() =~= es.update(0, (k, v)));
    } else {
        lemma_spec_insert_found(es.drop_first(), k, v, i - 1);
        assert(seq![es[0]] + es.drop_first().update(i - 1, (k, v)) =~= es.update(i, (k, v)));
    }
}

proof fn lemma_spec_insert_missing(es: EntriesModel, k: Seq<char>, v: ValueModel)
    requires
        forall|j: int| 0 <= j < es.len() ==> es[j].0 != k,
    ensures
        spec_insert(es, k, v) == es.push((k, v)),
    decreases es.len(),
{
    if es.len() == 0 {
        assert(seq![(k, v)] =~= es.push((k, v)));
    } else {
        lemma_spec_insert_missing(es.drop_first(), k, v);
        assert(seq![es[0]] + es.drop_first().push((k, v)) =~= es.push((k, v)));
    }
}

proof fn lemma_spec_get_found(es: EntriesModel, k: Seq<char>, i: int)
    requires
        0 <= i < es.len(),
        es[i].0 == k,
        forall|j: int| 0 <= j < i ==> es[j].0 != k,
    ensures
        spec_get(es, k) == Some(es[i].1),
    decreases i,
{
    if i > 0 {
        lemma_spec_get_found(es.drop_first(), k, i - 1);
    }
}

proof fn lemma_spec_get_missing(es: EntriesModel, k: Seq<char>)
    requires
        forall|j: int| 0 <= j < es.len() ==> es[j].0 != k,
    ensures
        spec_get(es, k) is None,
    decreases es.len(),
{
    if es.len() > 0 {
        lemma_spec_get_missing(es.drop_first(), k);
    }
}

/// Inserting never breaks key uniqueness: an object whose keys are unique
/// still has unique keys after any `insert`.
pub proof fn lemma_insert_keeps_distinct(es: EntriesModel, k: Seq<char>, v: ValueModel)
    requires
        distinct_keys(es),
    ensures
        distinct_keys(spec_insert(es, k, v)),
    decreases es.len(),
{
    if es.len() == 0 {
    } else if es[0].0 == k {
        let r = seq![(k, v)] + es.drop_first();
        assert forall|i: int, j: int| 0 <= i < j < r.len() implies r[i].0 != r[j].0 by {
            assert(es[0].0 == k);
            if i == 0 {
                assert(r[j] == es[j]);
                assert(es[0].0 != es[j].0);
            } else {
                assert(r[i] == es[i] && r[j] == es[j]);
            }
        }
    } else {
        assert(distinct_keys(es.drop_first())) by {
            assert(forall|i: int, j: int|
                0 <= i < j < es.drop_first().len() ==> es.drop_first()[i] == es[i + 1]
                    && es.drop_first()[j] == es[j + 1]);
        }
        lemma_insert_keeps_distinct(es.drop_first(), k, v);
        let t = spec_insert(es.drop_first(), k, v);
        let r = seq![es[0]] + t;
        lemma_insert_keys(es.drop_first(), k, v);
        assert forall|i: int, j: int| 0 <= i < j < r.len() implies r[i].0 != r[j].0 by {
            if i == 0 {
                assert(r[j].0 == t[j - 1].0);
            }
        }
    }
}

/// Every key of the result of an insert is either the inserted key or a key
/// that was already there.
pub proof fn lemma_insert_keys(es: EntriesModel, k: Seq<char>, v: ValueModel)
    ensures
        forall|j: int| 0 <= j < spec_insert(es, k, v).len() ==> (#[trigger] spec_insert(
            es,
            k,
            v,
        )[j].0 == k || exists|i: int| 0 <= i < es.len() && es[i].0 == spec_insert(es, k, v)[j].0),
    decreases es.len(),
{
    let r = spec_insert(es, k, v);
    if es.len() == 0 {
    } else if es[0].0 == k {
        assert forall|j: int| 0 <= j < r.len() implies (r[j].0 == k || exists|i: int|
            0 <= i < es.len() && es[i].0 == r[j].0) by {
            if j > 0 {
                assert(r[j] == es[j]);
                assert(es[j].0 == r[j].0);
            }
        }
    } else {
        lemma_insert_keys(es.drop_first(), k, v);
        let t = spec_insert(es.drop_first(), k, v);
        assert forall|j: int| 0 <= j < r.len() implies (r[j].0 == k || exists|i: int|
            0 <= i < es.len() && es[i].0 == r[j].0) by {
            if j == 0 {
                assert(r[0] == es[0]);
                assert(es[0].0 == r[0].0);
            } else {
                assert(r[j] == t[j - 1]);
                if t[j - 1].0 != k {
                    let i0 = choose|i: int|
                        0 <= i < es.drop_first().len() && es.drop_first()[i].0 == t[j - 1].0;
                    assert(es[i0 + 1].0 == r[j].0);
                }
            }
        }
    }
}

impl JsonMap {
    /// An object with no entries.
    pub fn new() -> (r: JsonMap)
        ensures
            r@ == Seq::<(Seq<char>, ValueModel)>::empty(),
    {
        let r = JsonMap { entries: Vec::new() };
        proof {
            assert(r@ =~= Seq::<(Seq<char>, ValueModel)>::empty());
        }
        r
    }

    /// The number of entries.
    pub fn len(&self) -> (n: usize)
        ensures
            n == self@.len(),
    {
        self.entries.len()
    }

    /// Maps `key` to `value`: replaces the value of an existing entry with
    /// that key, or appends a new entry at the end.
    pub fn insert(&mut self, key: String, value: JsonValue)
        ensures
            final(self)@ == spec_insert(old(self)@, key@, value@),
    {
        let n = self.entries.len();
        let mut i: usize = 0;
        while i < n
            invariant
                n == self.entries.len(),
                self@ == old(self)@,
                i <= n,
                forall|j: int| 0 <= j < i ==> self@[j].0 != key@,
            decreases n - i,
        {
            if str_eq(self.entries[i].0.as_str(), key.as_str()) {
                proof {
                    assert(self@[i as int] == (self.entries@[i as int].0@, self.entries@[
                        i as int].1@));
                    lemma_spec_insert_found(self@, key@, value@, i as int);
                }
                self.entries.set(i, (key, value));
                proof {
                    assert(self@ =~= old(self)@.update(i as int, (key@, value@)));
                }
                return;
            }
            i += 1;
        }
        proof {
            lemma_spec_insert_missing(self@, key@, value@);
        }
        self.entries.push((key, value));
        proof {
            assert(self@ =~= old(self)@.push((key@, value@)));
        }
    }

    /// Looks a key up, returning the value of the entry that holds it.
    pub fn get(&self, key: &str) -> (r: Option<&JsonValue>)
        ensures
            match r {
                Some(v) => spec_get(self@, key@) == Some(v@),
                None => spec_get(self@, key@) is None,
            },
    {
        let n = self.entries.len();
        let mut i: usize = 0;
        while i < n
            invariant
                n == self.entries.len(),
                i <= n,
                forall|j: int| 0 <= j < i ==> self@[j].0 != key@,
            decreases n - i,
        {
            if str_eq(self.entries[i].0.as_str(), key) {
                proof {
                    assert(self@[i as int] == (self.entries@[i as int].0@, self.entries@[
                        i as int].1@));
                    lemma_spec_get_found(self@, key@, i as int);
                }
                return Some(&self.entries[i].1);
            }
            i += 1;
        }
        proof {
            lemma_spec_get_missing(self@, key@);
        }
        None
    }

    /// Writes the object out as canonical JSON text.
    pub fn encode(&self) -> (r: String)
        ensures
            r@ == spec_encode(self@),
    {
        let ghost es = self@;
        let mut out = String::new();
        out.append("{");
        proof {
            reveal_strlit("{");
            assert(es.take(0).len() == 0);
            assert(out@ =~= seq!['{'] + enc_entries(es.take(0)));
        }
        let n = self.entries.len();
        let mut i: usize = 0;
        while i < n
            invariant
                n == self.entries.len(),
                es == self@,
                i <= n,
                out@ == seq!['{'] + enc_entries(es.take(i as int)),
            decreases n - i,
        {
            if i > 0 {
                out.append(",");
            }
            out.append("\"");
            append_escaped(&mut out, self.entries[i].0.as_str());
            out.append("\":");
            match &self.entries[i].1 {
                JsonValue::Text(t) => {
                    out.append("\"");
                    append_escaped(&mut out, t.as_str());
                    out.append("\"");
                },
                JsonValue::Flag(b) => {
                    if *b {
                        out.append("true");
                    } else {
                        out.append("false");
                    }
                },
            }
            proof {
                reveal_strlit(",");
                reveal_strlit("\"");
                reveal_strlit("\":");
                reveal_strlit("true");
                reveal_strlit("false");
                assert(es[i as int] == (self.entries@[i as int].0@, self.entries@[i as int].1@));
                lemma_enc_entries_snoc(es.take(i as int), es[i as int]);
                assert(es.take(i as int).push(es[i as int]) =~= es.take(i as int + 1));
                assert(enc_entries(seq![es[i as int]]) == enc_entry(es[i as int]));
                assert(out@ =~= seq!['{'] + enc_entries(es.take(i as int + 1)));
            }
            i += 1;
        }
        out.append("}");
        proof {
            reveal_strlit("{");
            reveal_strlit("}");
            assert(es.take(n as int) =~= es);
            assert(out@ =~= spec_encode(es));
        }
        out
    }
}

} // verus!
