//! The command interpreter: from a decoded request to a command, and from a
//! command to a response and a change of the store.
use vstd::prelude::*;
use vstd::std_specs::iter::IteratorSpec;
use vstd::string::{StrSliceExecFns, StringExecFns};
use vstd::utf8::{decode_utf8, encode_utf8, valid_utf8};

use crate::key_value_repository::RedisDatabase;
use crate::resp::{RespType, RespValue};

verus! {

/// The text that `String::from_utf8_lossy` makes of some bytes.
pub uninterp spec fn utf8_lossy(b: Seq<u8>) -> Seq<char>;

/// Relies on `String::from_utf8_lossy`: the text depends on the bytes alone,
/// and UTF-8 input comes back as the characters it encodes.
#[verifier::external_body]
fn text_from_utf8_lossy(b: &[u8]) -> (r: String)
    ensures
        r@ == utf8_lossy(b@),
        valid_utf8(b@) ==> r@ == decode_utf8(b@),
{
    String::from_utf8_lossy(b).into_owned()
}

/// A command, as text.
pub enum Action {
    SetKey(Seq<char>, Seq<char>),
    Get(Seq<char>),
    Del(Seq<char>),
    Ping,
    Unknown,
}

/// A request, as the store understands it.
#[derive(Debug, PartialEq, Eq)]
pub enum RedisAction {
    SetKey(String, String),
    Get(String),
    Del(String),
    Ping(),
    Unknown(),
}

impl RedisAction {
    pub open spec fn view(&self) -> Action {
        match self {
            RedisAction::SetKey(k, v) => Action::SetKey(k@, v@),
            RedisAction::Get(k) => Action::Get(k@),
            RedisAction::Del(k) => Action::Del(k@),
            RedisAction::Ping() => Action::Ping,
            RedisAction::Unknown() => Action::Unknown,
        }
    }
}

/// Space, tab, line feed, form feed and carriage return.
pub open spec fn is_space(c: char) -> bool {
    c == ' ' || c == '\t' || c == '\n' || c == '\x0C' || c == '\r'
}

/// The maximal runs of characters other than whitespace, in order.
pub open spec fn words(s: Seq<char>) -> Seq<Seq<char>>
    decreases s.len(),
{
    if s.len() == 0 {
        Seq::empty()
    } else {
        let w = words(s.drop_last());
        if is_space(s.last()) {
            w
        } else if s.len() > 1 && !is_space(s[s.len() - 2]) {
            w.update(w.len() - 1, w.last().push(s.last()))
        } else {
            w.push(seq![s.last()])
        }
    }
}

/// The command that a list of words spells; keywords are upper case and the
/// number of arguments must be exact.
pub open spec fn action_of_words(w: Seq<Seq<char>>) -> Action {
    if w.len() == 3 && w[0] == "SET"@ {
        Action::SetKey(w[1], w[2])
    } else if w.len() == 2 && w[0] == "GET"@ {
        Action::Get(w[1])
    } else if w.len() == 2 && w[0] == "DEL"@ {
        Action::Del(w[1])
    } else if w.len() == 1 && w[0] == "PING"@ {
        Action::Ping
    } else {
        Action::Unknown
    }
}

/// The text of a bulk string: its characters where it is UTF-8, else what
/// lossy decoding makes of it.
pub open spec fn bulk_text(b: Seq<u8>) -> Seq<char> {
    if valid_utf8(b) {
        decode_utf8(b)
    } else {
        utf8_lossy(b)
    }
}

/// The text of each bulk string among `a`, in order; other values are passed over.
pub open spec fn bulk_texts(a: Seq<RespValue>) -> Seq<Seq<char>>
    decreases a.len(),
{
    if a.len() == 0 {
        Seq::empty()
    } else {
        let t = bulk_texts(a.drop_last());
        match a.last() {
            RespValue::BulkString(b) => t.push(bulk_text(b)),
            _ => t,
        }
    }
}

/// Texts joined with single spaces.
pub open spec fn join(t: Seq<Seq<char>>) -> Seq<char>
    decreases t.len(),
{
    if t.len() == 0 {
        Seq::empty()
    } else if t.len() == 1 {
        t[0]
    } else {
        join(t.drop_last()) + seq![' '] + t.last()
    }
}

/// The command line that a request carries, if it has the shape of one.
pub open spec fn command_line(v: RespValue) -> Option<Seq<char>> {
    match v {
        RespValue::SimpleString(t) => Some(t),
        RespValue::Array(a) => if bulk_texts(a).len() == 0 {
            None
        } else {
            Some(join(bulk_texts(a)))
        },
        _ => None,
    }
}

/// The command a request stands for.
pub open spec fn action_spec(v: RespValue) -> Action {
    match command_line(v) {
        Some(t) => action_of_words(words(t)),
        None => Action::Unknown,
    }
}

/// The store after a command, and the response to it.
pub open spec fn execute(a: Action, m: Map<Seq<char>, Seq<char>>) -> (Map<Seq<char>, Seq<char>>, RespValue) {
    match a {
        Action::SetKey(k, v) => (m.insert(k, v), RespValue::SimpleString("OK"@)),
        Action::Get(k) => (m, if m.contains_key(k) {
            RespValue::BulkString(encode_utf8(m[k]))
        } else {
            RespValue::Null
        }),
        Action::Del(k) => (m.remove(k), RespValue::SimpleString("OK"@)),
        Action::Ping => (m, RespValue::SimpleString("PONG"@)),
        Action::Unknown => (m, RespValue::Error("Unknown command"@)),
    }
}

/// A nonempty run of characters other than whitespace.
pub open spec fn is_word(w: Seq<char>) -> bool {
    w.len() > 0 && forall|i: int| 0 <= i < w.len() ==> !is_space(#[trigger] w[i])
}

/// The request that is a line of text made of the given words.
pub open spec fn text_request(ws: Seq<Seq<char>>) -> RespValue {
    RespValue::SimpleString(join(ws))
}

/// Bulk strings holding the UTF-8 bytes of the given words.
pub open spec fn bulk_values(ws: Seq<Seq<char>>) -> Seq<RespValue> {
    Seq::new(ws.len(), |i: int| RespValue::BulkString(encode_utf8(ws[i])))
}

/// The request that is an array of bulk strings, one for each word.
pub open spec fn bulk_request(ws: Seq<Seq<char>>) -> RespValue {
    RespValue::Array(bulk_values(ws))
}

proof fn lemma_bulk_texts(ws: Seq<Seq<char>>)
    ensures
        bulk_texts(bulk_values(ws)) == ws,
    decreases ws.len(),
{
    broadcast use vstd::utf8::encode_utf8_valid_utf8, vstd::utf8::encode_utf8_decode_utf8;

    if ws.len() > 0 {
        lemma_bulk_texts(ws.drop_last());
        assert(bulk_values(ws).drop_last() =~= bulk_values(ws.drop_last()));
        assert(bulk_values(ws).last() == RespValue::BulkString(encode_utf8(ws.last())));
        assert(ws.drop_last().push(ws.last()) =~= ws);
    }
}

/// A command sent as an array of bulk strings means what the same words
/// sent as one line of text mean.
pub proof fn law_request_forms_agree(ws: Seq<Seq<char>>)
    requires
        ws.len() > 0,
    ensures
        action_spec(bulk_request(ws)) == action_spec(text_request(ws)),
{
    lemma_bulk_texts(ws);
}

proof fn lemma_words_of_word(w: Seq<char>)
    requires
        is_word(w),
    ensures
        words(w) == seq![w],
    decreases w.len(),
{
    assert(!is_space(w[w.len() - 1]));
    if w.len() == 1 {
        assert(w.drop_last() =~= Seq::<char>::empty());
        assert(words(w.drop_last()) == Seq::<Seq<char>>::empty());
        assert(seq![w.last()] =~= w);
        assert(Seq::<Seq<char>>::empty().push(seq![w.last()]) =~= seq![w]);
    } else {
        let dl = w.drop_last();
        assert(!is_space(w[w.len() - 2]));
        assert(is_word(dl));
        lemma_words_of_word(dl);
        assert(dl.push(w.last()) =~= w);
        assert(seq![dl].update(0, w) =~= seq![w]);
    }
}

proof fn lemma_words_append(s: Seq<char>, w: Seq<char>)
    requires
        is_word(w),
    ensures
        words(s + seq![' '] + w) == words(s).push(w),
    decreases w.len(),
{
    let t = s + seq![' '] + w;
    assert((s + seq![' ']).drop_last() =~= s);
    assert(words(s + seq![' ']) == words(s));
    if w.len() == 1 {
        assert(t.drop_last() =~= s + seq![' ']);
        assert(seq![t.last()] =~= w);
    } else {
        let w0 = w.drop_last();
        lemma_words_append(s, w0);
        assert(t.drop_last() =~= s + seq![' '] + w0);
        assert(t[t.len() - 2] == w[w.len() - 2]);
        assert(w0.push(w.last()) =~= w);
        assert(words(s).push(w0).update(words(s).len() as int, w) =~= words(s).push(w));
    }
}

/// A line of words joined with single spaces splits back into those words.
pub proof fn lemma_words_of_join(ws: Seq<Seq<char>>)
    requires
        forall|i: int| 0 <= i < ws.len() ==> is_word(#[trigger] ws[i]),
    ensures
        words(join(ws)) == ws,
    decreases ws.len(),
{
    if ws.len() == 0 {
    } else if ws.len() == 1 {
        lemma_words_of_word(ws[0]);
        assert(seq![ws[0]] =~= ws);
    } else {
        lemma_words_of_join(ws.drop_last());
        lemma_words_append(join(ws.drop_last()), ws.last());
        assert(ws.drop_last().push(ws.last()) =~= ws);
    }
}

proof fn lemma_keywords()
    ensures
        is_word("SET"@),
        is_word("GET"@),
        is_word("DEL"@),
        is_word("PING"@),
        "SET"@ != "GET"@,
        "SET"@ != "DEL"@,
        "GET"@ != "DEL"@,
{
    reveal_strlit("SET");
    reveal_strlit("GET");
    reveal_strlit("DEL");
    reveal_strlit("PING");
    assert("SET"@[0] != "GET"@[0]);
    assert("SET"@[0] != "DEL"@[0]);
    assert("GET"@[0] != "DEL"@[0]);
}

proof fn lemma_request_actions(k: Seq<char>, v: Seq<char>)
    requires
        is_word(k),
        is_word(v),
    ensures
        action_spec(text_request(seq!["SET"@, k, v])) == Action::SetKey(k, v),
        action_spec(text_request(seq!["GET"@, k])) == Action::Get(k),
        action_spec(text_request(seq!["DEL"@, k])) == Action::Del(k),
        action_spec(text_request(seq!["PING"@])) == Action::Ping,
        action_spec(bulk_request(seq!["SET"@, k, v])) == Action::SetKey(k, v),
        action_spec(bulk_request(seq!["GET"@, k])) == Action::Get(k),
        action_spec(bulk_request(seq!["DEL"@, k])) == Action::Del(k),
        action_spec(bulk_request(seq!["PING"@])) == Action::Ping,
{
    lemma_keywords();
    let s = seq!["SET"@, k, v];
    let g = seq!["GET"@, k];
    let d = seq!["DEL"@, k];
    let p = seq!["PING"@];
    assert forall|i: int| 0 <= i < s.len() implies is_word(#[trigger] s[i]) by {}
    assert forall|i: int| 0 <= i < g.len() implies is_word(#[trigger] g[i]) by {}
    assert forall|i: int| 0 <= i < d.len() implies is_word(#[trigger] d[i]) by {}
    assert forall|i: int| 0 <= i < p.len() implies is_word(#[trigger] p[i]) by {}
    lemma_words_of_join(s);
    lemma_words_of_join(g);
    lemma_words_of_join(d);
    lemma_words_of_join(p);
    law_request_forms_agree(s);
    law_request_forms_agree(g);
    law_request_forms_agree(d);
    law_request_forms_agree(p);
}

/// `SET k v` and then `GET k` answer with the bytes of `v`, whether each is
/// sent as a line of text or as an array of bulk strings.
pub proof fn law_set_then_get(m: Map<Seq<char>, Seq<char>>, k: Seq<char>, v: Seq<char>)
    requires
        is_word(k),
        is_word(v),
    ensures
        execute(
            action_spec(text_request(seq!["GET"@, k])),
            execute(action_spec(text_request(seq!["SET"@, k, v])), m).0,
        ).1 == RespValue::BulkString(encode_utf8(v)),
        execute(
            action_spec(bulk_request(seq!["GET"@, k])),
            execute(action_spec(bulk_request(seq!["SET"@, k, v])), m).0,
        ).1 == RespValue::BulkString(encode_utf8(v)),
{
    lemma_request_actions(k, v);
}

/// `GET k` on a key that was never written answers with the null value and
/// changes nothing.
pub proof fn law_get_missing(m: Map<Seq<char>, Seq<char>>, k: Seq<char>)
    requires
        is_word(k),
        !m.contains_key(k),
    ensures
        execute(action_spec(text_request(seq!["GET"@, k])), m) == (m, RespValue::Null),
        execute(action_spec(bulk_request(seq!["GET"@, k])), m) == (m, RespValue::Null),
{
    lemma_request_actions(k, k);
}

/// `DEL k` after `SET k v` removes the key, so that `GET k` then answers
/// with the null value; `DEL` answers OK whether the key was there or not.
pub proof fn law_del(m: Map<Seq<char>, Seq<char>>, k: Seq<char>, v: Seq<char>)
    requires
        is_word(k),
        is_word(v),
    ensures
        ({
            let m1 = execute(action_spec(text_request(seq!["SET"@, k, v])), m).0;
            let m2 = execute(action_spec(text_request(seq!["DEL"@, k])), m1).0;
            &&& !m2.contains_key(k)
            &&& execute(action_spec(text_request(seq!["GET"@, k])), m2).1 == RespValue::Null
        }),
        execute(action_spec(text_request(seq!["DEL"@, k])), m).1 == RespValue::SimpleString("OK"@),
        execute(action_spec(bulk_request(seq!["DEL"@, k])), m).1 == RespValue::SimpleString("OK"@),
{
    lemma_request_actions(k, v);
}

/// `PING` answers PONG whatever the store holds, and leaves it as it was.
pub proof fn law_ping(m: Map<Seq<char>, Seq<char>>)
    ensures
        execute(action_spec(text_request(seq!["PING"@])), m) == (m, RespValue::SimpleString("PONG"@)),
        execute(action_spec(bulk_request(seq!["PING"@])), m) == (m, RespValue::SimpleString("PONG"@)),
{
    reveal_strlit("PING");
    lemma_request_actions("PING"@, "PING"@);
}

/// The store after `SET` of each pair, in order.
pub open spec fn apply_sets(m: Map<Seq<char>, Seq<char>>, pairs: Seq<(Seq<char>, Seq<char>)>) -> Map<
    Seq<char>,
    Seq<char>,
>
    decreases pairs.len(),
{
    if pairs.len() == 0 {
        m
    } else {
        execute(Action::SetKey(pairs.last().0, pairs.last().1), apply_sets(m, pairs.drop_last())).0
    }
}

/// Writes to distinct keys, done one after another in any order, are all
/// kept: reading any of the keys afterwards answers with its value.
pub proof fn law_distinct_sets_all_kept(m: Map<Seq<char>, Seq<char>>, pairs: Seq<(Seq<char>, Seq<char>)>)
    requires
        forall|i: int, j: int| 0 <= i < j < pairs.len() ==> (#[trigger] pairs[i]).0 != (#[trigger] pairs[j]).0,
    ensures
        forall|i: int| 0 <= i < pairs.len() ==> execute(Action::Get((#[trigger] pairs[i]).0), apply_sets(m, pairs)).1
            == RespValue::BulkString(encode_utf8(pairs[i].1)),
    decreases pairs.len(),
{
    if pairs.len() > 0 {
        let rest = pairs.drop_last();
        law_distinct_sets_all_kept(m, rest);
        assert forall|i: int| 0 <= i < pairs.len() implies execute(Action::Get((#[trigger] pairs[i]).0), apply_sets(m, pairs)).1
            == RespValue::BulkString(encode_utf8(pairs[i].1)) by {
            if i < pairs.len() - 1 {
                assert(rest[i] == pairs[i]);
                assert(pairs[i].0 != pairs[pairs.len() - 1].0);
                assert(execute(Action::Get(rest[i].0), apply_sets(m, rest)).1 == RespValue::BulkString(encode_utf8(rest[i].1)));
            }
        }
    }
}

pub open spec fn spans_text(s: Seq<char>, spans: Seq<(usize, usize)>) -> Seq<Seq<char>> {
    Seq::new(spans.len(), |j: int| s.subrange(spans[j].0 as int, spans[j].1 as int))
}

/// The characters of `s`.
fn chars_of(s: &str) -> (r: Vec<char>)
    ensures
        r@ == s@,
{
    broadcast use vstd::string::axiom_spec_iter, vstd::string::next_postcondition;

    let mut it = s.chars();
    let mut r: Vec<char> = Vec::new();
    loop
        invariant
            r@.len() <= s@.len(),
            r@ == s@.subrange(0, r@.len() as int),
            it.remaining() == s@.subrange(r@.len() as int, s@.len() as int),
        ensures
            r@ == s@,
        decreases s@.len() - r@.len(),
    {
        match it.next() {
            Some(c) => {
                r.push(c);
                assert(r@ =~= s@.subrange(0, r@.len() as int));
            },
            None => {
                assert(r@ =~= s@);
                break;
            },
        }
    }
    r
}

/// Where each word of `s` starts and ends, counted in characters.
fn word_spans(s: &Vec<char>) -> (r: Vec<(usize, usize)>)
    ensures
        spans_text(s@, r@) == words(s@),
        forall|j: int| 0 <= j < r.len() ==> (#[trigger] r@[j]).0 <= r@[j].1 <= s.len(),
{
    let mut spans: Vec<(usize, usize)> = Vec::new();
    let mut in_word = false;
    let mut i: usize = 0;
    assert(s@.subrange(0, 0) =~= Seq::<char>::empty());
    assert(spans_text(s@, spans@) =~= Seq::<Seq<char>>::empty());
    while i < s.len()
        invariant
            i <= s.len(),
            spans_text(s@, spans@) == words(s@.subrange(0, i as int)),
            forall|j: int| 0 <= j < spans.len() ==> (#[trigger] spans@[j]).0 <= spans@[j].1 <= i,
            in_word == (i > 0 && !is_space(s@[i - 1])),
            in_word ==> spans.len() > 0 && spans@[spans.len() - 1].1 == i,
        decreases s.len() - i,
    {
        let c = s[i];
        let ghost pre = s@.subrange(0, i as int);
        let ghost cur = s@.subrange(0, i + 1);
        assert(cur.drop_last() =~= pre);
        assert(cur.last() == c);
        let space = c == ' ' || c == '\t' || c == '\n' || c == '\x0C' || c == '\r';
        if space {
            in_word = false;
        } else if in_word {
            let last = spans.len() - 1;
            let (a, _) = spans[last];
            let ghost old_spans = spans@;
            spans.set(last, (a, i + 1));
            proof {
                assert(i > 0 && cur[i - 1] == s@[i - 1]);
                let w = words(pre);
                assert(spans_text(s@, spans@) =~= w.update(w.len() - 1, w.last().push(c))) by {
                    assert(s@.subrange(a as int, i + 1) =~= s@.subrange(a as int, i as int).push(c));
                    assert(spans_text(s@, old_spans)[last as int] == s@.subrange(a as int, i as int));
                }
            }
        } else {
            spans.push((i, i + 1));
            in_word = true;
            proof {
                assert(i > 0 ==> cur[i - 1] == s@[i - 1]);
                let w = words(pre);
                assert(spans_text(s@, spans@) =~= w.push(seq![c])) by {
                    assert(s@.subrange(i as int, i + 1) =~= seq![c]);
                }
            }
        }
        i = i + 1;
    }
    assert(s@.subrange(0, i as int) =~= s@);
    spans
}

/// The command that a line of text spells.
pub fn command_to_action(line: &str) -> (r: RedisAction)
    ensures
        r@ == action_of_words(words(line@)),
{
    let chars = chars_of(line);
    let spans = word_spans(&chars);
    let n = spans.len();
    if n < 1 || n > 3 {
        return RedisAction::Unknown();
    }
    proof {
        assert(words(line@).len() == n);
    }
    let first = line.substring_char(spans[0].0, spans[0].1).to_owned();
    assert(first@ == words(line@)[0]);
    if n == 3 && first == String::from_str("SET") {
        let key = line.substring_char(spans[1].0, spans[1].1).to_owned();
        let value = line.substring_char(spans[2].0, spans[2].1).to_owned();
        assert(key@ == words(line@)[1]);
        assert(value@ == words(line@)[2]);
        RedisAction::SetKey(key, value)
    } else if n == 2 && first == String::from_str("GET") {
        let key = line.substring_char(spans[1].0, spans[1].1).to_owned();
        assert(key@ == words(line@)[1]);
        RedisAction::Get(key)
    } else if n == 2 && first == String::from_str("DEL") {
        let key = line.substring_char(spans[1].0, spans[1].1).to_owned();
        assert(key@ == words(line@)[1]);
        RedisAction::Del(key)
    } else if n == 1 && first == String::from_str("PING") {
        RedisAction::Ping()
    } else {
        RedisAction::Unknown()
    }
}

impl RedisAction {
    /// The command that a request stands for: a line of text, or an array
    /// whose bulk strings are joined with spaces. Anything else is unknown.
    pub fn from(resp: RespType) -> (r: RedisAction)
        ensures
            r@ == action_spec(resp@),
    {
        match resp {
            RespType::SimpleString(command) => command_to_action(command.as_str()),
            RespType::Array(array) => {
                let ghost es = resp@->Array_0;
                let mut joined = String::new();
                let mut count: usize = 0;
                let mut i: usize = 0;
                assert(es.subrange(0, 0) =~= Seq::<RespValue>::empty());
                while i < array.len()
                    invariant
                        i <= array.len(),
                        es.len() == array.len(),
                        forall|j: int| 0 <= j < array.len() ==> es[j] == (#[trigger] array@[j])@,
                        count <= i,
                        count == bulk_texts(es.subrange(0, i as int)).len(),
                        joined@ == join(bulk_texts(es.subrange(0, i as int))),
                    decreases array.len() - i,
                {
                    let ghost pre = es.subrange(0, i as int);
                    let ghost cur = es.subrange(0, i + 1);
                    assert(cur.drop_last() =~= pre);
                    assert(cur.last() == array@[i as int]@);
                    if let RespType::BulkString(b) = &array[i] {
                        let t = text_from_utf8_lossy(b.as_slice());
                        if count > 0 {
                            joined.append(" ");
                            proof {
                                reveal_strlit(" ");
                            }
                        }
                        joined.append(t.as_str());
                        count = count + 1;
                        proof {
                            let bt = bulk_texts(pre);
                            assert(bulk_texts(cur) == bt.push(t@));
                            assert(bt.push(t@).drop_last() =~= bt);
                            if bt.len() == 0 {
                                assert(join(bt.push(t@)) == t@);
                                assert(joined@ =~= t@);
                            } else {
                                assert(joined@ =~= join(bt) + seq![' '] + t@);
                            }
                        }
                    }
                    i = i + 1;
                }
                assert(es.subrange(0, i as int) =~= es);
                if count > 0 {
                    command_to_action(joined.as_str())
                } else {
                    RedisAction::Unknown()
                }
            },
            _ => RedisAction::Unknown(),
        }
    }
}

/// Runs commands against a store.
pub struct RedisActionHandler {
    db: RedisDatabase,
}

impl RedisActionHandler {
    /// The entries of the store.
    pub closed spec fn store(&self) -> Map<Seq<char>, Seq<char>> {
        self.db@
    }

    pub fn new(db: RedisDatabase) -> (r: RedisActionHandler)
        ensures
            r.store() == db@,
    {
        RedisActionHandler { db }
    }

    /// Answers a request, changing the store as its command says.
    pub fn handle(&mut self, resp: RespType) -> (r: RespType)
        ensures
            (final(self).store(), r@) == execute(action_spec(resp@), old(self).store()),
    {
        let action = RedisAction::from(resp);
        match action {
            RedisAction::SetKey(key, value) => {
                self.db.set(key, value);
                RespType::SimpleString("OK".to_owned())
            },
            RedisAction::Get(key) => {
                match self.db.get(key.as_str()) {
                    Some(value) => RespType::BulkString(value.as_str().as_bytes_vec()),
                    None => RespType::Null,
                }
            },
            RedisAction::Del(key) => {
                self.db.del(key.as_str());
                RespType::SimpleString("OK".to_owned())
            },
            RedisAction::Ping() => RespType::SimpleString("PONG".to_owned()),
            RedisAction::Unknown() => RespType::Error("Unknown command".to_owned()),
        }
    }
}

} // verus!
