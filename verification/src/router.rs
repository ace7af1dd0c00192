//! The router between nodes that prefill and nodes that decode: which node is next, what
//! each is asked, and how a request goes on.

use vstd::prelude::*;
use vstd::string::*;
use crate::ids::{is_lower_hex, is_uuid_text, random_uuid};
use crate::keyed::{
    as_map, find_named, has_key, is_entry, lemma_place, lemma_push, lemma_remove, lemma_update,
    named, unique_keys,
};
use crate::order::{counts_text, ints_of, list_text};
use crate::text::{
    chars_of, decimal, decimal_text, join2, join3, join4, push_decimal, quote, quoted,
};

verus! {

/// A field of a request, as far as the router looks into it.
#[derive(Debug, PartialEq, Eq)]
pub enum JsonField {
    Bool(bool),
    Int(i64),
    Text(String),
    /// Anything else, as it is written.
    Raw(String),
}

/// A field as plain values.
pub enum JsonView {
    Bool(bool),
    Int(i64),
    Text(Seq<char>),
    Raw(Seq<char>),
}

impl View for JsonField {
    type V = JsonView;

    open spec fn view(&self) -> JsonView {
        match *self {
            JsonField::Bool(b) => JsonView::Bool(b),
            JsonField::Int(n) => JsonView::Int(n),
            JsonField::Text(s) => JsonView::Text(s@),
            JsonField::Raw(s) => JsonView::Raw(s@),
        }
    }
}

impl JsonField {
    /// A copy.
    pub fn duplicate(&self) -> (r: Self)
        ensures
            r@ == self@,
    {
        match self {
            JsonField::Bool(b) => JsonField::Bool(*b),
            JsonField::Int(n) => JsonField::Int(*n),
            JsonField::Text(s) => JsonField::Text(s.clone()),
            JsonField::Raw(s) => JsonField::Raw(s.clone()),
        }
    }
}

/// The fields of a request, as plain values.
pub open spec fn field_views(v: Seq<(String, JsonField)>) -> Seq<(Seq<char>, JsonView)> {
    v.map_values(|e: (String, JsonField)| (e.0@, e.1@))
}

/// The body of a request: fields with different names.
#[derive(Debug)]
pub struct RequestBody {
    fields: Vec<(String, JsonField)>,
}

impl View for RequestBody {
    type V = Map<Seq<char>, JsonView>;

    closed spec fn view(&self) -> Map<Seq<char>, JsonView> {
        as_map(field_views(self.fields@))
    }
}

impl RequestBody {
    /// No two fields have the same name.
    pub closed spec fn wf(self) -> bool {
        unique_keys(field_views(self.fields@))
    }

    /// A body without fields.
    pub fn new() -> (r: Self)
        ensures
            r.wf(),
            r@ == Map::<Seq<char>, JsonView>::empty(),
    {
        let r: RequestBody = RequestBody { fields: Vec::new() };
        assert(r@ =~= Map::<Seq<char>, JsonView>::empty()) by {
            assert forall|k: Seq<char>| !has_key(field_views(r.fields@), k) by {
                assert forall|i: int| !is_entry(field_views(r.fields@), k, i) by {}
            }
        }
        r
    }

    fn find(&self, name: &str) -> (r: Option<usize>)
        requires
            self.wf(),
        ensures
            match r {
                Some(i) => {
                    &&& i < self.fields@.len()
                    &&& is_entry(field_views(self.fields@), name@, i as int)
                    &&& self@.contains_key(name@)
                    &&& self@[name@] == self.fields@[i as int].1@
                },
                None => !self@.contains_key(name@) && !has_key(field_views(self.fields@), name@),
            },
    {
        match find_named(&self.fields, name) {
            Some(i) => {
                proof {
                    assert(is_entry(named(self.fields@), name@, i as int));
                    assert(is_entry(field_views(self.fields@), name@, i as int));
                    lemma_place(field_views(self.fields@), name@, i as int);
                }
                Some(i)
            },
            None => {
                assert forall|k: int| !is_entry(field_views(self.fields@), name@, k) by {
                    if is_entry(field_views(self.fields@), name@, k) {
                        assert(is_entry(named(self.fields@), name@, k));
                    }
                }
                None
            },
        }
    }

    /// A field, where there is one of that name.
    pub fn get(&self, name: &str) -> (r: Option<&JsonField>)
        requires
            self.wf(),
        ensures
            match r {
                Some(f) => self@.contains_key(name@) && self@[name@] == f@,
                None => !self@.contains_key(name@),
            },
    {
        match self.find(name) {
            Some(i) => Some(&self.fields[i].1),
            None => None,
        }
    }

    /// Sets a field.
    pub fn set(&mut self, name: &str, value: JsonField)
        requires
            old(self).wf(),
        ensures
            final(self).wf(),
            final(self)@ == old(self)@.insert(name@, value@),
    {
        let ghost before = field_views(self.fields@);
        let ghost view = value@;
        match self.find(name) {
            Some(i) => {
                self.fields[i].1 = value;
                proof {
                    lemma_update(before, i as int, view);
                    assert(field_views(self.fields@) =~= before.update(i as int, (name@, view)));
                }
            },
            None => {
                self.fields.push((String::from_str(name), value));
                proof {
                    lemma_push(before, name@, view);
                    assert(field_views(self.fields@) =~= before.push((name@, view)));
                }
            },
        }
    }

    /// Removes a field.
    pub fn remove(&mut self, name: &str)
        requires
            old(self).wf(),
        ensures
            final(self).wf(),
            final(self)@ == old(self)@.remove(name@),
    {
        let ghost before = field_views(self.fields@);
        match self.find(name) {
            Some(i) => {
                self.fields.remove(i);
                proof {
                    lemma_remove(before, i as int);
                    assert(field_views(self.fields@) =~= before.remove(i as int));
                }
            },
            None => {
                assert(self@ =~= self@.remove(name@));
            },
        }
    }

    /// A copy.
    pub fn duplicate(&self) -> (r: Self)
        requires
            self.wf(),
        ensures
            r.wf(),
            r@ == self@,
    {
        let mut fields: Vec<(String, JsonField)> = Vec::new();
        let ghost all = field_views(self.fields@);
        let mut i: usize = 0;
        assert(field_views(fields@) =~= all.take(0));
        while i < self.fields.len()
            invariant
                i <= self.fields@.len(),
                all == field_views(self.fields@),
                field_views(fields@) == all.take(i as int),
            decreases self.fields@.len() - i,
        {
            let ghost shown = field_views(fields@);
            let name: String = self.fields[i].0.clone();
            let value: JsonField = self.fields[i].1.duplicate();
            let ghost entry = (name@, value@);
            fields.push((name, value));
            i += 1;
            assert(field_views(fields@) =~= shown.push(entry));
            assert(all.take(i as int) =~= all.take(i - 1).push(entry));
        }
        assert(all.take(i as int) =~= all);
        RequestBody { fields }
    }

    /// The fields with their names, in no particular order.
    pub fn into_fields(self) -> (r: Vec<(String, JsonField)>)
        requires
            self.wf(),
        ensures
            unique_keys(field_views(r@)),
            as_map(field_views(r@)) == self@,
    {
        self.fields
    }
}

/// The name of a request: the one that it brings, or else the one that was drawn for it.
pub open spec fn request_name(body: Map<Seq<char>, JsonView>, drawn: Seq<char>) -> Seq<char> {
    if body.contains_key("request_id"@) {
        match body["request_id"@] {
            JsonView::Text(s) => s,
            _ => drawn,
        }
    } else {
        drawn
    }
}

/// The name of a request, with one that was drawn for it.
pub fn request_id_or(body: &RequestBody, drawn: String) -> (r: String)
    requires
        body.wf(),
    ensures
        r@ == request_name(body@, drawn@),
{
    match body.get("request_id") {
        Some(JsonField::Text(s)) => s.clone(),
        _ => drawn,
    }
}

/// The name of a request: the one that it brings, or a random one.
pub fn request_id(body: &RequestBody) -> (r: String)
    requires
        body.wf(),
    ensures
        (body@.contains_key("request_id"@) && body@["request_id"@] is Text) ==> JsonView::Text(r@)
            == body@["request_id"@],
        !(body@.contains_key("request_id"@) && body@["request_id"@] is Text) ==> is_uuid_text(r@),
{
    let drawn: String = random_uuid();
    request_id_or(body, drawn)
}

/// Whether a request wants its answer as a stream.
pub open spec fn wants_stream(body: Map<Seq<char>, JsonView>) -> bool {
    body.contains_key("stream"@) && body["stream"@] == JsonView::Bool(true)
}

/// Whether a request wants its answer as a stream.
pub fn streams(body: &RequestBody) -> (r: bool)
    requires
        body.wf(),
    ensures
        r == wants_stream(body@),
{
    match body.get("stream") {
        Some(JsonField::Bool(b)) => *b,
        _ => false,
    }
}

/// The least number of tokens that a node which prefills is asked for: no more than the one
/// that it is asked for at most.
pub open spec fn prefill_min_tokens(body: Map<Seq<char>, JsonView>) -> i64 {
    if body.contains_key("min_tokens"@) {
        match body["min_tokens"@] {
            JsonView::Int(n) => if n < 1 {
                n
            } else {
                1
            },
            _ => 0,
        }
    } else {
        0
    }
}

/// What a node that prefills is asked: for one token, at once.
pub open spec fn prefill_fields(body: Map<Seq<char>, JsonView>, id: Seq<char>) -> Map<
    Seq<char>,
    JsonView,
> {
    body.insert("max_tokens"@, JsonView::Int(1)).insert("stream"@, JsonView::Bool(false)).insert(
        "request_id"@,
        JsonView::Text(id),
    ).remove("stream_options"@).insert("min_tokens"@, JsonView::Int(prefill_min_tokens(body)))
}

/// What a node that decodes is asked: what was asked of the router, under the name of the
/// request.
pub open spec fn decode_fields(body: Map<Seq<char>, JsonView>, id: Seq<char>) -> Map<
    Seq<char>,
    JsonView,
> {
    body.insert("stream"@, JsonView::Bool(wants_stream(body))).insert(
        "request_id"@,
        JsonView::Text(id),
    )
}

/// What a node that prefills is asked.
pub fn prefill_body(body: &RequestBody, id: &str) -> (r: RequestBody)
    requires
        body.wf(),
    ensures
        r.wf(),
        r@ == prefill_fields(body@, id@),
{
    let mut r: RequestBody = body.duplicate();
    r.set("max_tokens", JsonField::Int(1));
    r.set("stream", JsonField::Bool(false));
    r.set("request_id", JsonField::Text(String::from_str(id)));
    r.remove("stream_options");
    let least: i64 = match r.get("min_tokens") {
        Some(JsonField::Int(n)) => if *n < 1 {
            *n
        } else {
            1
        },
        _ => 0,
    };
    proof {
        lemma_names_differ();
        assert(least == prefill_min_tokens(body@));
    }
    r.set("min_tokens", JsonField::Int(least));
    r
}

/// What a node that decodes is asked.
pub fn decode_body(body: RequestBody, id: &str) -> (r: RequestBody)
    requires
        body.wf(),
    ensures
        r.wf(),
        r@ == decode_fields(body@, id@),
{
    let stream: bool = streams(&body);
    let mut r: RequestBody = body;
    r.set("stream", JsonField::Bool(stream));
    r.set("request_id", JsonField::Text(String::from_str(id)));
    r
}

proof fn lemma_names_differ()
    ensures
        "min_tokens"@ != "max_tokens"@,
        "min_tokens"@ != "stream"@,
        "min_tokens"@ != "request_id"@,
        "min_tokens"@ != "stream_options"@,
        "max_tokens"@ != "stream"@,
        "max_tokens"@ != "request_id"@,
        "max_tokens"@ != "stream_options"@,
        "stream"@ != "request_id"@,
        "stream"@ != "stream_options"@,
        "request_id"@ != "stream_options"@,
{
    reveal_strlit("min_tokens");
    reveal_strlit("max_tokens");
    reveal_strlit("stream");
    reveal_strlit("request_id");
    reveal_strlit("stream_options");
    assert("min_tokens"@[1] == 'i');
    assert("max_tokens"@[1] == 'a');
    assert("min_tokens"@[0] == 'm');
    assert("max_tokens"@[0] == 'm');
    assert("request_id"@[0] == 'r');
    assert("stream"@.len() == 6);
    assert("stream_options"@.len() == 14);
    assert("stream_options"@[0] == 's');
    assert("min_tokens"@.len() == 10);
}

/// A node that prefills is asked for exactly one token and no stream, is never asked for more
/// tokens at least than at most, and is told everything else as the router was.
pub proof fn law_prefill_asks_for_one_token(
    body: Map<Seq<char>, JsonView>,
    id: Seq<char>,
    name: Seq<char>,
)
    ensures
        ({
            let p = prefill_fields(body, id);
            &&& p.contains_key("max_tokens"@) && p["max_tokens"@] == JsonView::Int(1)
            &&& p.contains_key("stream"@) && p["stream"@] == JsonView::Bool(false)
            &&& p.contains_key("request_id"@) && p["request_id"@] == JsonView::Text(id)
            &&& !p.contains_key("stream_options"@)
            &&& p.contains_key("min_tokens"@)
            &&& p["min_tokens"@] matches JsonView::Int(n) && n <= 1 && match body["min_tokens"@] {
                JsonView::Int(asked) if body.contains_key("min_tokens"@) => if asked <= 1 {
                    n == asked
                } else {
                    n == 1
                },
                _ => n == 0,
            }
            &&& name != "max_tokens"@ && name != "stream"@ && name != "request_id"@ && name
                != "stream_options"@ && name != "min_tokens"@ ==> p.contains_key(name)
                == body.contains_key(name) && (body.contains_key(name) ==> p[name] == body[name])
        }),
{
    lemma_names_differ();
}

/// A node that decodes is told what the router was, but for the name of the request: above
/// all how many tokens, and how they are to be streamed.
pub proof fn law_decode_restores_the_request(
    body: Map<Seq<char>, JsonView>,
    id: Seq<char>,
    name: Seq<char>,
)
    requires
        name != "request_id"@,
        name != "stream"@,
    ensures
        decode_fields(body, id).contains_key(name) == body.contains_key(name),
        body.contains_key(name) ==> decode_fields(body, id)[name] == body[name],
        wants_stream(decode_fields(body, id)) == wants_stream(body),
{
    lemma_names_differ();
}

/// A request keeps the name that it brings as a text, and otherwise has the one that was drawn
/// for it; the node that decodes is told it, and streams exactly where the router was asked to.
pub proof fn law_requests_keep_their_name(
    body: Map<Seq<char>, JsonView>,
    drawn: Seq<char>,
    brought: Seq<char>,
    id: Seq<char>,
)
    ensures
        body.contains_key("request_id"@) && body["request_id"@] == JsonView::Text(brought)
            ==> request_name(body, drawn) == brought,
        !body.contains_key("request_id"@) || !(body["request_id"@] is Text) ==> request_name(
            body,
            drawn,
        ) == drawn,
        decode_fields(body, id).contains_key("request_id"@),
        decode_fields(body, id)["request_id"@] == JsonView::Text(id),
        decode_fields(body, id).contains_key("stream"@),
        decode_fields(body, id)["stream"@] == JsonView::Bool(
            body.contains_key("stream"@) && body["stream"@] == JsonView::Bool(true),
        ),
        wants_stream(body) <==> body.contains_key("stream"@) && body["stream"@] == JsonView::Bool(
            true,
        ),
{
    lemma_names_differ();
}

/// Whether a character may stand in the name of a file that marks a request.
pub open spec fn is_marker_char(c: char) -> bool {
    ||| 'a' <= c <= 'z'
    ||| 'A' <= c <= 'Z'
    ||| '0' <= c <= '9'
    ||| c == '.'
    ||| c == '_'
    ||| c == '-'
}

/// Whether a name of a request may stand in the name of a file.
pub open spec fn is_marker_name(id: Seq<char>) -> bool {
    id.len() > 0 && forall|i: int| 0 <= i < id.len() ==> is_marker_char(#[trigger] id[i])
}

/// What is said of a name that may not stand in the name of a file; `shown` is the name in
/// quotes.
pub fn unsafe_marker_text(shown: &str) -> (r: String)
    ensures
        r@ == "request id "@ + shown@ + " is unsafe for a visibility marker"@,
{
    join3("request id ", shown, " is unsafe for a visibility marker")
}

/// Refuses a name of a request that may not stand in the name of a file.
pub fn validate_marker_request_id(request_id: &str) -> (r: Result<(), String>)
    ensures
        match r {
            Ok(_) => is_marker_name(request_id@),
            Err(m) => !is_marker_name(request_id@) && m@ == "request id "@ + quoted(request_id@)
                + " is unsafe for a visibility marker"@,
        },
{
    let chars: Vec<char> = chars_of(request_id);
    let mut safe: bool = chars.len() > 0;
    let mut i: usize = 0;
    while i < chars.len()
        invariant
            i <= chars@.len(),
            chars@ == request_id@,
            safe == (chars@.len() > 0 && forall|k: int|
                0 <= k < i ==> is_marker_char(#[trigger] chars@[k])),
        decreases chars@.len() - i,
    {
        let c: char = chars[i];
        let good: bool = ('a' <= c && c <= 'z') || ('A' <= c && c <= 'Z') || ('0' <= c && c <= '9')
            || c == '.' || c == '_' || c == '-';
        assert(good == is_marker_char(chars@[i as int]));
        safe = safe && good;
        i += 1;
    }
    if safe {
        return Ok(());
    }
    let shown: String = quote(request_id);
    Err(unsafe_marker_text(shown.as_str()))
}

/// A name that was drawn at random may stand in the name of a file.
pub proof fn law_drawn_names_are_safe(id: Seq<char>)
    requires
        is_uuid_text(id),
    ensures
        is_marker_name(id),
{
    assert forall|i: int| 0 <= i < id.len() implies is_marker_char(#[trigger] id[i]) by {
        if i == 8 || i == 13 || i == 18 || i == 23 {
            assert(id[i] == '-');
        } else {
            assert(is_lower_hex(id[i]));
        }
    }
}

/// A name is let through exactly if it is made of letters, digits, dots, underscores and dashes,
/// one at least; a name that is added to one that was let through changes nothing of that.
pub proof fn law_marker_names_are_plain(id: Seq<char>, more: Seq<char>)
    requires
        id.len() > 0,
    ensures
        is_marker_name(id) <==> forall|i: int|
            0 <= i < id.len() ==> ('a' <= #[trigger] id[i] <= 'z') || ('A' <= id[i] <= 'Z') || (
            '0' <= id[i] <= '9') || id[i] == '.' || id[i] == '_' || id[i] == '-',
        !is_marker_name(Seq::empty()),
        more.len() > 0 ==> (is_marker_name(id + more) <==> is_marker_name(id) && is_marker_name(
            more,
        )),
{
    if is_marker_name(id) {
        assert forall|i: int| 0 <= i < id.len() implies ('a' <= #[trigger] id[i] <= 'z') || ('A'
            <= id[i] <= 'Z') || ('0' <= id[i] <= '9') || id[i] == '.' || id[i] == '_' || id[i]
            == '-' by {
            assert(is_marker_char(id[i]));
        }
    }
    let both = id + more;
    if more.len() > 0 {
        assert forall|i: int| 0 <= i < id.len() implies both[i] == #[trigger] id[i] by {}
        assert forall|i: int| 0 <= i < more.len() implies both[id.len() + i] == #[trigger] more[i] by {
        }
        if is_marker_name(both) {
            assert forall|i: int| 0 <= i < id.len() implies is_marker_char(#[trigger] id[i]) by {
                assert(is_marker_char(both[i]));
            }
            assert forall|i: int| 0 <= i < more.len() implies is_marker_char(
                #[trigger] more[i],
            ) by {
                assert(is_marker_char(both[id.len() + i]));
            }
        }
        if is_marker_name(id) && is_marker_name(more) {
            assert forall|i: int| 0 <= i < both.len() implies is_marker_char(
                #[trigger] both[i],
            ) by {
                if i < id.len() {
                    assert(both[i] == id[i]);
                } else {
                    assert(both[i] == more[i - id.len()]);
                }
            }
        }
    }
}

/// No name that is let through reaches another directory: it has no separator.
pub proof fn law_marker_names_stay_in_their_directory(id: Seq<char>, i: int)
    requires
        is_marker_name(id),
        0 <= i < id.len(),
    ensures
        id[i] != '/',
        id[i] != '\\',
{
    assert(is_marker_char(id[i]));
}

/// The file that says that a rank has published a request.
pub fn marker_name(request_id: &str, rank: usize) -> (r: String)
    ensures
        r@ == request_id@ + ".tp"@ + decimal(rank as nat) + ".visible"@,
{
    join4(request_id, ".tp", decimal_text(rank as u64).as_str(), ".visible")
}

/// Where the files are that say that a request is published, how many there have to be, and
/// how long they may take.
#[derive(Debug)]
pub struct PrefillAckConfig {
    pub directory: String,
    pub ranks: usize,
    pub timeout_secs: u64,
}

/// Whether acknowledgements are waited for: all three options are given, or neither a
/// directory nor ranks are. Anything else is refused.
pub fn prefill_ack_config(directory: Option<&str>, ranks: usize, timeout_secs: u64) -> (r: Result<
    Option<PrefillAckConfig>,
    String,
>)
    ensures
        match directory {
            Some(d) => if ranks > 0 && timeout_secs > 0 {
                r matches Ok(Some(c)) && c.directory@ == d@ && c.ranks == ranks && c.timeout_secs
                    == timeout_secs
            } else {
                r is Err
            },
            None => if ranks == 0 {
                r matches Ok(None)
            } else {
                r is Err
            },
        },
        r matches Err(m) ==> m@
            == "--prefill-ack-dir, positive --prefill-ack-ranks, and positive --prefill-ack-timeout-seconds must be configured together"@,
{
    match directory {
        Some(d) => {
            if ranks > 0 && timeout_secs > 0 {
                return Ok(
                    Some(PrefillAckConfig { directory: String::from_str(d), ranks, timeout_secs }),
                );
            }
        },
        None => {
            if ranks == 0 {
                return Ok(None);
            }
        },
    }
    Err(
        String::from_str(
            "--prefill-ack-dir, positive --prefill-ack-ranks, and positive --prefill-ack-timeout-seconds must be configured together",
        ),
    )
}

/// What a look at the files came to.
#[derive(Clone, Copy, Debug, PartialEq, Eq, Structural)]
pub enum AckStep {
    /// All are there.
    Visible,
    /// Look again in a while.
    Wait,
    /// The time is up.
    TimedOut,
}

/// Whether to wait any longer, given which files are there and how long it has taken, in
/// milliseconds. Files that are there count even where the time is up.
pub fn ack_step(config: &PrefillAckConfig, visible: &[bool], elapsed_ms: u64) -> (r: AckStep)
    requires
        visible@.len() == config.ranks,
    ensures
        r == (if forall|k: int| 0 <= k < visible@.len() ==> visible@[k] {
            AckStep::Visible
        } else if elapsed_ms >= config.timeout_secs * 1000 {
            AckStep::TimedOut
        } else {
            AckStep::Wait
        }),
{
    let mut all: bool = true;
    let mut k: usize = 0;
    while k < visible.len()
        invariant
            k <= visible@.len(),
            all == forall|q: int| 0 <= q < k ==> visible@[q],
        decreases visible@.len() - k,
    {
        if !visible[k] {
            all = false;
        }
        k += 1;
    }
    if all {
        AckStep::Visible
    } else if elapsed_ms as u128 >= config.timeout_secs as u128 * 1000 {
        AckStep::TimedOut
    } else {
        AckStep::Wait
    }
}

/// What is said where the files do not come in time.
pub fn ack_timeout_text(config: &PrefillAckConfig) -> (r: String)
    ensures
        r@ == "timed out after "@ + decimal(config.timeout_secs as nat) + ".000s waiting for "@
            + decimal(config.ranks as nat) + " TP visibility markers in "@ + config.directory@,
{
    let mut m: String = String::from_str("timed out after ");
    push_decimal(&mut m, config.timeout_secs);
    m.append(".000s waiting for ");
    push_decimal(&mut m, config.ranks as u64);
    m.append(" TP visibility markers in ");
    m.append(&config.directory);
    m
}

/// What is said where a file cannot be looked for.
pub fn ack_inspect_text(marker: &str, error: &str) -> (r: String)
    ensures
        r@ == "cannot inspect visibility marker "@ + marker@ + ": "@ + error@,
{
    join4("cannot inspect visibility marker ", marker, ": ", error)
}

/// One more, around the end of the numbers.
pub open spec fn up(n: usize) -> usize {
    if n == usize::MAX {
        0
    } else {
        (n + 1) as usize
    }
}

/// One less, around the end of the numbers.
pub open spec fn down(n: usize) -> usize {
    if n == 0 {
        usize::MAX
    } else {
        (n - 1) as usize
    }
}

/// Nodes that take requests in turn, with the number of requests that each has.
#[derive(Debug)]
pub struct NodePool {
    pub urls: Vec<String>,
    pub index: usize,
    pub inflight: Vec<usize>,
}

impl NodePool {
    /// There are nodes, and each has a count.
    pub open spec fn wf(self) -> bool {
        self.urls@.len() > 0 && self.inflight@.len() == self.urls@.len()
    }

    /// The node whose turn it is.
    pub open spec fn turn(self) -> int {
        self.index as int % self.urls@.len() as int
    }

    /// Nodes without requests.
    pub fn new(urls: Vec<String>) -> (r: Self)
        requires
            urls@.len() > 0,
        ensures
            r.wf(),
            r.urls == urls,
            r.index == 0,
            forall|k: int| 0 <= k < urls@.len() ==> #[trigger] r.inflight@[k] == 0,
    {
        let mut inflight: Vec<usize> = Vec::new();
        let mut i: usize = 0;
        while i < urls.len()
            invariant
                i <= urls@.len(),
                inflight@.len() == i,
                forall|k: int| 0 <= k < i ==> #[trigger] inflight@[k] == 0,
            decreases urls@.len() - i,
        {
            inflight.push(0);
            i += 1;
        }
        NodePool { urls, index: 0, inflight }
    }

    /// Gives the next node a request.
    pub fn next(&mut self) -> (r: usize)
        requires
            old(self).wf(),
        ensures
            final(self).wf(),
            r == old(self).turn(),
            r < old(self).urls@.len(),
            final(self).urls == old(self).urls,
            final(self).index == up(old(self).index),
            final(self).inflight@ == old(self).inflight@.update(
                r as int,
                up(old(self).inflight@[r as int]),
            ),
            gives(*old(self), *final(self), r),
            r == old(self).index as int % old(self).urls@.len() as int,
            old(self).index < usize::MAX ==> final(self).index == old(self).index + 1,
            old(self).inflight@[r as int] < usize::MAX ==> final(self).inflight@[r as int]
                == old(self).inflight@[r as int] + 1,
    {
        let node: usize = self.index % self.urls.len();
        self.index = self.index.wrapping_add(1);
        let count: usize = self.inflight[node].wrapping_add(1);
        self.inflight.set(node, count);
        node
    }

    /// A node has finished a request.
    pub fn finish(&mut self, node: usize)
        requires
            old(self).wf(),
            node < old(self).urls@.len(),
        ensures
            final(self).wf(),
            final(self).urls == old(self).urls,
            final(self).index == old(self).index,
            final(self).inflight@ == old(self).inflight@.update(
                node as int,
                down(old(self).inflight@[node as int]),
            ),
            takes_back(*old(self), *final(self), node),
            old(self).inflight@[node as int] > 0 ==> final(self).inflight@[node as int]
                == old(self).inflight@[node as int] - 1,
    {
        let count: usize = self.inflight[node].wrapping_sub(1);
        self.inflight.set(node, count);
    }
}

/// Whether a request for `node` turns one pool into another.
pub open spec fn gives(before: NodePool, after: NodePool, node: usize) -> bool {
    &&& before.wf()
    &&& after.wf()
    &&& node == before.turn()
    &&& after.urls == before.urls
    &&& after.index == up(before.index)
    &&& after.inflight@ == before.inflight@.update(node as int, up(before.inflight@[node as int]))
}

/// Whether the end of a request of `node` turns one pool into another.
pub open spec fn takes_back(before: NodePool, after: NodePool, node: usize) -> bool {
    &&& before.wf()
    &&& after.wf()
    &&& after.urls == before.urls
    &&& after.index == before.index
    &&& after.inflight@ == before.inflight@.update(
        node as int,
        down(before.inflight@[node as int]),
    )
}

/// A node that is given a request has one more, and the next node is up; every other node has as
/// many as before. A node that finishes one has one less. Left out are counts that wrap around.
pub proof fn law_requests_are_counted_one_by_one(
    before: NodePool,
    after: NodePool,
    node: usize,
    k: int,
)
    requires
        node < before.inflight@.len(),
        0 <= k < before.inflight@.len(),
    ensures
        gives(before, after, node) ==> {
            &&& before.index < usize::MAX ==> after.index == before.index + 1
            &&& k != node ==> after.inflight@[k] == before.inflight@[k]
            &&& before.inflight@[node as int] < usize::MAX ==> after.inflight@[node as int]
                == before.inflight@[node as int] + 1
            &&& after.inflight@.len() == before.inflight@.len()
        },
        takes_back(before, after, node) ==> {
            &&& after.index == before.index
            &&& k != node ==> after.inflight@[k] == before.inflight@[k]
            &&& before.inflight@[node as int] > 0 ==> after.inflight@[node as int]
                == before.inflight@[node as int] - 1
            &&& after.inflight@.len() == before.inflight@.len()
        },
{
}

/// Whether requests were given to `nodes` one after the other, from the first pool on.
pub open spec fn given_in_turn(pools: Seq<NodePool>, nodes: Seq<usize>) -> bool {
    &&& pools.len() == nodes.len() + 1
    &&& forall|k: int| 0 <= k < nodes.len() ==> gives(pools[k], pools[k + 1], #[trigger] nodes[k])
}

proof fn lemma_given(pools: Seq<NodePool>, nodes: Seq<usize>, k: int)
    requires
        given_in_turn(pools, nodes),
        0 <= k <= nodes.len(),
        pools[0].index + nodes.len() <= usize::MAX + 1,
        nodes.len() > 0,
    ensures
        pools[k].urls == pools[0].urls,
        pools[k].wf(),
        pools[0].index + k <= usize::MAX ==> pools[k].index == pools[0].index + k,
        k < nodes.len() ==> nodes[k] == (pools[0].index + k) % (pools[0].urls@.len() as int),
    decreases k,
{
    if k > 0 {
        lemma_given(pools, nodes, k - 1);
        assert(gives(pools[k - 1], pools[k - 1 + 1], nodes[k - 1]));
    } else {
        assert(gives(pools[0], pools[1], nodes[0]));
    }
    if k < nodes.len() {
        assert(gives(pools[k], pools[k + 1], nodes[k]));
    }
}

/// Successive requests go to one node after the other: the node of the next request is the one
/// behind, with the first behind the last, and no node gets a second one before every other has
/// got one. Each node has exactly as many more as went to it. Left out are the turns and counts
/// that wrap around.
pub proof fn law_successive_requests_go_round(
    pools: Seq<NodePool>,
    nodes: Seq<usize>,
    i: int,
    j: int,
    node: usize,
)
    requires
        given_in_turn(pools, nodes),
        pools[0].index + nodes.len() <= usize::MAX + 1,
        0 <= i < j < nodes.len(),
        node < pools[0].inflight@.len(),
        pools[0].inflight@[node as int] + nodes.len() <= usize::MAX,
    ensures
        nodes[i + 1] == (if nodes[i] + 1 < pools[0].urls@.len() {
            nodes[i] + 1
        } else {
            0
        }),
        j - i < pools[0].urls@.len() ==> nodes[i] != nodes[j],
        j - i == pools[0].urls@.len() ==> nodes[i] == nodes[j],
        pools.last().inflight@[node as int] == pools[0].inflight@[node as int] + nodes.to_multiset().count(
            node,
        ),
{
    let n = pools[0].urls@.len() as int;
    let a = pools[0].index as int;
    lemma_given(pools, nodes, i);
    lemma_given(pools, nodes, i + 1);
    lemma_given(pools, nodes, j);
    lemma_rounds(a + i, a + j, n);
    lemma_rounds(a + i, a + i + 1, n);
    lemma_given_counts(pools, nodes, nodes.len() as int, node);
    assert(nodes.take(nodes.len() as int) =~= nodes);
}

proof fn lemma_rounds(a: int, b: int, n: int)
    requires
        0 <= a < b,
        n > 0,
    ensures
        0 <= a % n < n,
        b - a < n ==> a % n != b % n,
        b - a == n ==> a % n == b % n,
        b == a + 1 ==> b % n == if a % n + 1 < n {
            a % n + 1
        } else {
            0
        },
{
    let r = a % n;
    let d = a / n;
    vstd::arithmetic::div_mod::lemma_fundamental_div_mod(a, n);
    vstd::arithmetic::div_mod::lemma_mod_bound(a, n);
    if b - a < n {
        let q = r + (b - a);
        if q < n {
            assert(b == d * n + q) by (nonlinear_arith)
                requires
                    a == n * d + r,
                    q == r + (b - a),
            ;
            vstd::arithmetic::div_mod::lemma_fundamental_div_mod_converse(b, n, d, q);
        } else {
            assert(b == (d + 1) * n + (q - n)) by (nonlinear_arith)
                requires
                    a == n * d + r,
                    q == r + (b - a),
            ;
            vstd::arithmetic::div_mod::lemma_fundamental_div_mod_converse(b, n, d + 1, q - n);
        }
    }
    if b - a == n {
        vstd::arithmetic::div_mod::lemma_mod_add_multiples_vanish(a, n);
    }
    if b == a + 1 && n == 1 {
        vstd::arithmetic::div_mod::lemma_mod_bound(b, n);
    }
}

proof fn lemma_given_counts(pools: Seq<NodePool>, nodes: Seq<usize>, k: int, node: usize)
    requires
        given_in_turn(pools, nodes),
        0 <= k <= nodes.len(),
        node < pools[0].inflight@.len(),
        pools[0].inflight@[node as int] + k <= usize::MAX,
    ensures
        pools[k].inflight@.len() == pools[0].inflight@.len(),
        pools[k].inflight@[node as int] == pools[0].inflight@[node as int] + nodes.take(k).to_multiset().count(
            node,
        ),
        nodes.take(k).to_multiset().count(node) <= k,
    decreases k,
{
    broadcast use vstd::seq_lib::group_to_multiset_ensures;

    if k > 0 {
        lemma_given_counts(pools, nodes, k - 1, node);
        assert(gives(pools[k - 1], pools[k - 1 + 1], nodes[k - 1]));
        assert(nodes.take(k) =~= nodes.take(k - 1).push(nodes[k - 1]));
        vstd::arithmetic::div_mod::lemma_mod_bound(
            pools[k - 1].index as int,
            pools[k - 1].urls@.len() as int,
        );
    } else {
        assert(nodes.take(0) =~= Seq::<usize>::empty());
    }
}

/// Nodes take turns: as many requests as there are nodes reach every node, and the next one
/// is again for the first. Left out are the turns at which the count wraps around.
pub proof fn law_nodes_take_turns(index: usize, n: int, k: int)
    requires
        n > 0,
        0 <= k < n,
        index + n <= usize::MAX,
    ensures
        exists|i: int| 0 <= i < n && #[trigger] ((index + i) % n) == k,
        (index + n) % n == index as int % n,
{
    let r = index as int % n;
    let i: int = if r <= k {
        k - r
    } else {
        k - r + n
    };
    vstd::arithmetic::div_mod::lemma_fundamental_div_mod(index as int, n);
    let d = index as int / n;
    assert((index + i) % n == k) by {
        if r <= k {
            assert(index + i == d * n + k) by (nonlinear_arith)
                requires
                    index as int == n * d + r,
                    i == k - r,
            ;
            vstd::arithmetic::div_mod::lemma_fundamental_div_mod_converse(index + i, n, d, k);
        } else {
            assert(index + i == (d + 1) * n + k) by (nonlinear_arith)
                requires
                    index as int == n * d + r,
                    i == k - r + n,
            ;
            vstd::arithmetic::div_mod::lemma_fundamental_div_mod_converse(index + i, n, d + 1, k);
        }
    }
    vstd::arithmetic::div_mod::lemma_mod_add_multiples_vanish(index as int, n);
}

/// What the router knows of its nodes.
#[derive(Debug)]
pub struct RouterState {
    pub prefill: NodePool,
    pub decode: NodePool,
}

impl RouterState {
    /// Both kinds of nodes are in order.
    pub open spec fn wf(self) -> bool {
        self.prefill.wf() && self.decode.wf()
    }

    /// A router for some nodes.
    pub fn new(prefill_endpoints: Vec<String>, decode_endpoints: Vec<String>) -> (r: Self)
        requires
            prefill_endpoints@.len() > 0,
            decode_endpoints@.len() > 0,
        ensures
            r.wf(),
            r.prefill.urls == prefill_endpoints,
            r.decode.urls == decode_endpoints,
            r.prefill.index == 0,
            r.decode.index == 0,
            forall|k: int|
                0 <= k < prefill_endpoints@.len() ==> #[trigger] r.prefill.inflight@[k] == 0,
            forall|k: int|
                0 <= k < decode_endpoints@.len() ==> #[trigger] r.decode.inflight@[k] == 0,
    {
        RouterState { prefill: NodePool::new(prefill_endpoints), decode: NodePool::new(decode_endpoints) }
    }

    /// How many requests each node has, in words.
    pub fn get_inflight_summary(&self) -> (r: String)
        ensures
            r@ == "P="@ + list_text(ints_of(self.prefill.inflight@)) + " D="@ + list_text(
                ints_of(self.decode.inflight@),
            ),
    {
        join4(
            "P=",
            counts_text(self.prefill.inflight.as_slice()).as_str(),
            " D=",
            counts_text(self.decode.inflight.as_slice()).as_str(),
        )
    }
}

/// Where a request stands.
#[derive(Clone, Copy, Debug, PartialEq, Eq, Structural)]
pub enum RouteState {
    /// A node prefills it.
    Prefilling { node: usize },
    /// A node has prefilled it, and is to publish it.
    Acknowledging { node: usize },
    /// A node decodes it.
    Decoding { node: usize },
    /// A node streams its answer.
    Streaming { node: usize },
    Done,
}

/// The node that prefills in a state.
pub open spec fn prefill_node(s: RouteState) -> Option<usize> {
    match s {
        RouteState::Prefilling { node } => Some(node),
        RouteState::Acknowledging { node } => Some(node),
        _ => None,
    }
}

/// The node that decodes in a state.
pub open spec fn decode_node(s: RouteState) -> Option<usize> {
    match s {
        RouteState::Decoding { node } => Some(node),
        RouteState::Streaming { node } => Some(node),
        _ => None,
    }
}

/// The counts of some nodes after a request has left one of them for another, or for none.
pub open spec fn handed_over(counts: Seq<usize>, from: Option<usize>, to: Option<usize>) -> Seq<
    usize,
> {
    let without = match from {
        Some(n) => counts.update(n as int, down(counts[n as int])),
        None => counts,
    };
    match to {
        Some(n) => without.update(n as int, up(without[n as int])),
        None => without,
    }
}

/// A node that got a request and lost it again has as many as before.
pub proof fn law_finish_undoes_next(counts: Seq<usize>, n: usize)
    requires
        n < counts.len(),
    ensures
        handed_over(handed_over(counts, None, Some(n)), Some(n), None) == counts,
{
    assert(handed_over(handed_over(counts, None, Some(n)), Some(n), None) =~= counts);
}

/// A node that a request comes to has one more, a node that it leaves has one less, and every
/// other node has as many as before. Left out are counts that wrap around.
pub proof fn law_handing_over_moves_one_request(counts: Seq<usize>, from: usize, to: usize, k: int)
    requires
        from < counts.len(),
        to < counts.len(),
        from != to,
        0 <= k < counts.len(),
        counts[from as int] > 0,
        counts[to as int] < usize::MAX,
    ensures
        handed_over(counts, None, Some(to))[k] == counts[k] + (if k == to {
            1int
        } else {
            0
        }),
        handed_over(counts, Some(from), None)[k] == counts[k] - (if k == from {
            1int
        } else {
            0
        }),
        handed_over(counts, Some(from), Some(to))[k] == counts[k] + (if k == to {
            1int
        } else if k == from {
            -1
        } else {
            0
        }),
        handed_over(counts, None, None) == counts,
        handed_over(counts, Some(from), Some(to)).len() == counts.len(),
{
}

/// What a node answered.
#[derive(Debug)]
pub enum NodeReply {
    /// It could not be asked.
    Unreachable(String),
    /// Its answer could not be read.
    Unreadable(String),
    /// It answered with this status.
    Answered { status: u16 },
}

/// What to do next for a request.
#[derive(Debug)]
pub enum RouteStep {
    /// Ask a node to prefill.
    SendPrefill { url: String, body: RequestBody },
    /// Wait until the prefilled request is published.
    WaitForAck,
    /// Ask a node to decode.
    SendDecode { url: String, body: RequestBody },
    /// Answer what the node that prefills answered.
    RelayPrefill,
    /// Answer what the node that decodes answered.
    RelayDecode,
    /// Answer what the node that decodes sends, as it comes.
    StreamDecode,
    /// Answer with an error.
    Fail { status: u16, error: String },
}

/// A request on its way.
#[derive(Debug)]
pub struct Route {
    pub id: String,
    pub api_path: String,
    pub stream: bool,
    pub state: RouteState,
    pub body: RequestBody,
}

/// Whether a step answers with an error.
pub open spec fn fails(step: RouteStep, status: u16, error: Seq<char>) -> bool {
    step matches RouteStep::Fail { status: s, error: e } && s == status && e@ == error
}

/// Whether a step asks a node to decode a request.
pub open spec fn sends_decode(
    step: RouteStep,
    router: RouterState,
    id: Seq<char>,
    api_path: Seq<char>,
    body: Map<Seq<char>, JsonView>,
) -> bool {
    step matches RouteStep::SendDecode { url, body: b } && url@
        == router.decode.urls@[router.decode.turn()]@ + api_path && b.wf() && b@ == decode_fields(
        body,
        id,
    )
}

/// Whether a request goes from one state to another, with so many nodes that decode.
pub open spec fn goes_to(from: RouteState, to: RouteState, nodes: nat) -> bool {
    match (from, to) {
        (
            RouteState::Prefilling { node: a },
            RouteState::Acknowledging { node: b },
        ) => a == b,
        (RouteState::Prefilling { .. }, RouteState::Decoding { node }) => node < nodes,
        (RouteState::Acknowledging { .. }, RouteState::Decoding { node }) => node < nodes,
        (RouteState::Decoding { node: a }, RouteState::Streaming { node: b }) => a == b,
        (RouteState::Done, RouteState::Done) => false,
        (_, RouteState::Done) => true,
        _ => false,
    }
}

/// Whether two routers differ at most in the counts and turns that a request moves when it
/// goes from one state to another.
pub open spec fn follows(
    before: RouterState,
    after: RouterState,
    from: RouteState,
    to: RouteState,
) -> bool {
    &&& after.wf()
    &&& goes_to(from, to, before.decode.inflight@.len())
    &&& after.prefill.urls == before.prefill.urls
    &&& after.decode.urls == before.decode.urls
    &&& after.prefill.index == before.prefill.index
    &&& after.decode.index == if decode_node(from) is None && decode_node(to) is Some {
        up(before.decode.index)
    } else {
        before.decode.index
    }
    &&& after.prefill.inflight@ == if prefill_node(from) == prefill_node(to) {
        before.prefill.inflight@
    } else {
        handed_over(before.prefill.inflight@, prefill_node(from), prefill_node(to))
    }
    &&& after.decode.inflight@ == if decode_node(from) == decode_node(to) {
        before.decode.inflight@
    } else {
        handed_over(before.decode.inflight@, decode_node(from), decode_node(to))
    }
}

/// With every step of a request, the nodes that it leaves and comes to are counted, and no
/// others: a node that prefills has it while it prefills and until that is published, and a node
/// that decodes until its answer or stream ends. A turn of the nodes that decode is taken exactly
/// where one of them is asked. Left out are counts that wrap around.
pub proof fn law_steps_move_one_request(
    before: RouterState,
    after: RouterState,
    from: RouteState,
    to: RouteState,
    k: usize,
)
    requires
        before.wf(),
        follows(before, after, from, to),
        match from {
            RouteState::Prefilling { node } => node < before.prefill.inflight@.len()
                && before.prefill.inflight@[node as int] > 0,
            RouteState::Acknowledging { node } => node < before.prefill.inflight@.len()
                && before.prefill.inflight@[node as int] > 0,
            RouteState::Decoding { node } => node < before.decode.inflight@.len()
                && before.decode.inflight@[node as int] > 0,
            RouteState::Streaming { node } => node < before.decode.inflight@.len()
                && before.decode.inflight@[node as int] > 0,
            RouteState::Done => true,
        },
        to matches RouteState::Decoding { node } ==> before.decode.inflight@[node as int]
            < usize::MAX,
    ensures
        ({
            let prefills = |s: RouteState|
                if s == (RouteState::Prefilling { node: k }) || s == (RouteState::Acknowledging {
                    node: k,
                }) {
                    1int
                } else {
                    0
                };
            let decodes = |s: RouteState|
                if s == (RouteState::Decoding { node: k }) || s == (RouteState::Streaming {
                    node: k,
                }) {
                    1int
                } else {
                    0
                };
            &&& k < before.prefill.inflight@.len() ==> after.prefill.inflight@[k as int]
                == before.prefill.inflight@[k as int] + prefills(to) - prefills(from)
            &&& k < before.decode.inflight@.len() ==> after.decode.inflight@[k as int]
                == before.decode.inflight@[k as int] + decodes(to) - decodes(from)
            &&& after.prefill.index == before.prefill.index
            &&& to is Decoding && before.decode.index < usize::MAX ==> after.decode.index
                == before.decode.index + 1
            &&& !(to is Decoding) ==> after.decode.index == before.decode.index
            &&& !(to is Prefilling)
            &&& !(from is Done)
            &&& from is Decoding || from is Streaming ==> to is Streaming || to is Done
            &&& to is Streaming ==> from is Decoding
            &&& to is Acknowledging ==> from is Prefilling
        }),
{
}

/// A request is decoded by the node whose turn it is: its address and the path that was asked
/// for, with what the node is to be told.
pub proof fn law_decode_goes_to_the_node_in_turn(
    url: String,
    body: RequestBody,
    router: RouterState,
    id: Seq<char>,
    api_path: Seq<char>,
    asked: Map<Seq<char>, JsonView>,
)
    requires
        router.wf(),
        sends_decode(
            (RouteStep::SendDecode { url, body }),
            router,
            id,
            api_path,
            asked,
        ),
    ensures
        url@ == router.decode.urls@[router.decode.index as int % router.decode.urls@.len() as int]@
            + api_path,
        body@ == decode_fields(asked, id),
{
}

impl Route {
    /// What was asked.
    pub open spec fn asked(self) -> Map<Seq<char>, JsonView> {
        self.body@
    }

    /// The request is in order, and the node that has it is one of the router's.
    pub open spec fn wf(self, router: RouterState) -> bool {
        &&& router.wf()
        &&& self.body.wf()
        &&& self.stream == wants_stream(self.body@)
        &&& prefill_node(self.state) matches Some(n) ==> n < router.prefill.urls@.len()
        &&& decode_node(self.state) matches Some(n) ==> n < router.decode.urls@.len()
    }

    /// Whether everything but the state is the same.
    pub open spec fn same_request(self, other: Route) -> bool {
        self.id == other.id && self.api_path == other.api_path && self.stream == other.stream
            && self.body == other.body
    }

    /// A request arrives: a node is asked to prefill it.
    pub fn begin(router: &mut RouterState, body: RequestBody, id: String, api_path: &str) -> (r: (
        Route,
        RouteStep,
    ))
        requires
            old(router).wf(),
            body.wf(),
        ensures
            r.0.wf(*final(router)),
            r.0.id == id,
            r.0.api_path@ == api_path@,
            r.0.asked() == body@,
            r.0.stream == wants_stream(body@),
            r.0.state == (RouteState::Prefilling { node: old(router).prefill.turn() as usize }),
            r.1 matches RouteStep::SendPrefill { url, body: b } && url@
                == old(router).prefill.urls@[old(router).prefill.turn()]@ + api_path@ && b.wf()
                && b@ == prefill_fields(body@, id@),
            final(router).decode == old(router).decode,
            final(router).prefill.urls == old(router).prefill.urls,
            final(router).prefill.index == up(old(router).prefill.index),
            final(router).prefill.inflight@ == handed_over(
                old(router).prefill.inflight@,
                None,
                Some(old(router).prefill.turn() as usize),
            ),
    {
        let asked: RequestBody = prefill_body(&body, id.as_str());
        let stream: bool = streams(&body);
        let node: usize = router.prefill.next();
        let url: String = join2(router.prefill.urls[node].as_str(), api_path);
        (
            Route {
                id,
                api_path: String::from_str(api_path),
                stream,
                state: RouteState::Prefilling { node },
                body,
            },
            RouteStep::SendPrefill { url, body: asked },
        )
    }

    /// The node that has prefilled is done with the request: a node is asked to decode it.
    fn start_decode(&mut self, router: &mut RouterState, prefilled_by: usize) -> (r: RouteStep)
        requires
            old(self).wf(*old(router)),
            prefill_node(old(self).state) == Some(prefilled_by),
        ensures
            final(self).wf(*final(router)),
            final(self).same_request(*old(self)),
            final(self).state == (RouteState::Decoding {
                node: old(router).decode.turn() as usize,
            }),
            follows(*old(router), *final(router), old(self).state, final(self).state),
            sends_decode(r, *old(router), old(self).id@, old(self).api_path@, old(self).asked()),
    {
        router.prefill.finish(prefilled_by);
        let asked: RequestBody = decode_body(self.body.duplicate(), self.id.as_str());
        let node: usize = router.decode.next();
        let url: String = join2(router.decode.urls[node].as_str(), self.api_path.as_str());
        self.state = RouteState::Decoding { node };
        RouteStep::SendDecode { url, body: asked }
    }

    /// The node that prefills has answered. Where it did not succeed, that is the answer to
    /// the request; otherwise a node is asked to decode, once the request is published where
    /// that is waited for.
    pub fn on_prefill(&mut self, router: &mut RouterState, reply: NodeReply, wait_for_ack: bool) -> (r:
        RouteStep)
        requires
            old(self).wf(*old(router)),
            old(self).state is Prefilling,
        ensures
            final(self).wf(*final(router)),
            final(self).same_request(*old(self)),
            follows(*old(router), *final(router), old(self).state, final(self).state),
            match reply {
                NodeReply::Unreachable(e) => final(self).state is Done && fails(
                    r,
                    502,
                    "Prefill node error: "@ + e@,
                ),
                NodeReply::Unreadable(e) => final(self).state is Done && fails(
                    r,
                    502,
                    "Prefill response error: "@ + e@,
                ),
                NodeReply::Answered { status } => if !(200 <= status < 300) {
                    final(self).state is Done && r is RelayPrefill
                } else if wait_for_ack {
                    final(self).state is Acknowledging && r is WaitForAck
                } else {
                    final(self).state == (RouteState::Decoding {
                        node: old(router).decode.turn() as usize,
                    }) && sends_decode(
                        r,
                        *old(router),
                        old(self).id@,
                        old(self).api_path@,
                        old(self).asked(),
                    )
                },
            },
    {
        let node: usize = match self.state {
            RouteState::Prefilling { node } => node,
            _ => 0,
        };
        let error: String = match reply {
            NodeReply::Unreachable(e) => join2("Prefill node error: ", e.as_str()),
            NodeReply::Unreadable(e) => join2("Prefill response error: ", e.as_str()),
            NodeReply::Answered { status } => {
                if !(200 <= status && status < 300) {
                    router.prefill.finish(node);
                    self.state = RouteState::Done;
                    return RouteStep::RelayPrefill;
                }
                if wait_for_ack {
                    self.state = RouteState::Acknowledging { node };
                    return RouteStep::WaitForAck;
                }
                return self.start_decode(router, node);
            },
        };
        router.prefill.finish(node);
        self.state = RouteState::Done;
        RouteStep::Fail { status: 502, error }
    }

    /// The prefilled request is published, or is not.
    pub fn on_ack(&mut self, router: &mut RouterState, outcome: Result<(), String>) -> (r: RouteStep)
        requires
            old(self).wf(*old(router)),
            old(self).state is Acknowledging,
        ensures
            final(self).wf(*final(router)),
            final(self).same_request(*old(self)),
            follows(*old(router), *final(router), old(self).state, final(self).state),
            match outcome {
                Ok(_) => final(self).state == (RouteState::Decoding {
                    node: old(router).decode.turn() as usize,
                }) && sends_decode(
                    r,
                    *old(router),
                    old(self).id@,
                    old(self).api_path@,
                    old(self).asked(),
                ),
                Err(reason) => final(self).state is Done && fails(
                    r,
                    504,
                    "Prefill visibility error: "@ + reason@,
                ),
            },
    {
        let node: usize = match self.state {
            RouteState::Acknowledging { node } => node,
            _ => 0,
        };
        match outcome {
            Ok(_) => self.start_decode(router, node),
            Err(reason) => {
                router.prefill.finish(node);
                self.state = RouteState::Done;
                RouteStep::Fail {
                    status: 504,
                    error: join2("Prefill visibility error: ", reason.as_str()),
                }
            },
        }
    }

    /// The node that decodes has answered. A stream keeps it busy until it ends.
    pub fn on_decode(&mut self, router: &mut RouterState, reply: NodeReply) -> (r: RouteStep)
        requires
            old(self).wf(*old(router)),
            old(self).state is Decoding,
        ensures
            final(self).wf(*final(router)),
            final(self).same_request(*old(self)),
            follows(*old(router), *final(router), old(self).state, final(self).state),
            match reply {
                NodeReply::Unreachable(e) => final(self).state is Done && fails(
                    r,
                    502,
                    "Decode node error: "@ + e@,
                ),
                NodeReply::Unreadable(e) => final(self).state is Done && fails(
                    r,
                    502,
                    "Decode response error: "@ + e@,
                ),
                NodeReply::Answered { status } => if old(self).stream {
                    final(self).state is Streaming && r is StreamDecode
                } else {
                    final(self).state is Done && r is RelayDecode
                },
            },
    {
        let node: usize = match self.state {
            RouteState::Decoding { node } => node,
            _ => 0,
        };
        let error: String = match reply {
            NodeReply::Unreachable(e) => join2("Decode node error: ", e.as_str()),
            NodeReply::Unreadable(e) => join2("Decode response error: ", e.as_str()),
            NodeReply::Answered { status: _ } => {
                if self.stream {
                    self.state = RouteState::Streaming { node };
                    return RouteStep::StreamDecode;
                }
                router.decode.finish(node);
                self.state = RouteState::Done;
                return RouteStep::RelayDecode;
            },
        };
        router.decode.finish(node);
        self.state = RouteState::Done;
        RouteStep::Fail { status: 502, error }
    }

    /// A stream has ended.
    pub fn on_stream_end(&mut self, router: &mut RouterState)
        requires
            old(self).wf(*old(router)),
            old(self).state is Streaming,
        ensures
            final(self).wf(*final(router)),
            final(self).same_request(*old(self)),
            final(self).state is Done,
            follows(*old(router), *final(router), old(self).state, final(self).state),
    {
        let node: usize = match self.state {
            RouteState::Streaming { node } => node,
            _ => 0,
        };
        router.decode.finish(node);
        self.state = RouteState::Done;
    }
}

/// Once a request is done, no node counts it any more, whatever way it took: every count is
/// as it was before it arrived. `states` are the states of the request one after the other,
/// and `routers` the router at each.
pub proof fn law_finished_requests_are_not_counted(
    arrived: RouterState,
    states: Seq<RouteState>,
    routers: Seq<RouterState>,
    node: usize,
)
    requires
        states.len() > 0,
        routers.len() == states.len(),
        node < arrived.prefill.inflight@.len(),
        states[0] == (RouteState::Prefilling { node }),
        routers[0].prefill.inflight@ == handed_over(arrived.prefill.inflight@, None, Some(node)),
        routers[0].decode.inflight@ == arrived.decode.inflight@,
        forall|k: int|
            0 <= k < states.len() - 1 ==> #[trigger] follows(
                routers[k],
                routers[k + 1],
                states[k],
                states[k + 1],
            ),
        states.last() is Done,
    ensures
        routers.last().prefill.inflight@ == arrived.prefill.inflight@,
        routers.last().decode.inflight@ == arrived.decode.inflight@,
{
    lemma_counts_along(arrived, states, routers, node, states.len() - 1);
}

/// The counts at a state of a request are those from before it arrived, with the request on
/// the nodes that have it.
proof fn lemma_counts_along(
    arrived: RouterState,
    states: Seq<RouteState>,
    routers: Seq<RouterState>,
    node: usize,
    k: int,
)
    requires
        0 <= k < states.len(),
        routers.len() == states.len(),
        node < arrived.prefill.inflight@.len(),
        states[0] == (RouteState::Prefilling { node }),
        routers[0].prefill.inflight@ == handed_over(arrived.prefill.inflight@, None, Some(node)),
        routers[0].decode.inflight@ == arrived.decode.inflight@,
        forall|j: int|
            0 <= j < states.len() - 1 ==> #[trigger] follows(
                routers[j],
                routers[j + 1],
                states[j],
                states[j + 1],
            ),
    ensures
        routers[k].prefill.inflight@ == handed_over(
            arrived.prefill.inflight@,
            None,
            prefill_node(states[k]),
        ),
        routers[k].decode.inflight@ == handed_over(
            arrived.decode.inflight@,
            None,
            decode_node(states[k]),
        ),
        prefill_node(states[k]) matches Some(p) ==> p == node,
        decode_node(states[k]) matches Some(d) ==> d < arrived.decode.inflight@.len(),
    decreases k,
{
    if k > 0 {
        lemma_counts_along(arrived, states, routers, node, k - 1);
        assert(follows(routers[k - 1], routers[k - 1 + 1], states[k - 1], states[k - 1 + 1]));
        let p = arrived.prefill.inflight@;
        let d = arrived.decode.inflight@;
        if prefill_node(states[k - 1]) is Some && prefill_node(states[k]) is None {
            law_finish_undoes_next(p, node);
        }
        if decode_node(states[k - 1]) is Some && decode_node(states[k]) is None {
            law_finish_undoes_next(d, decode_node(states[k - 1])->0);
        }
    }
}

/// A request stays what it is while it goes from node to node, and the fields of its body are
/// shown whole.
pub proof fn law_requests_stay_what_they_are(
    a: Route,
    b: Route,
    fields: Seq<(String, JsonField)>,
    i: int,
)
    ensures
        a.same_request(b) ==> a.id == b.id && a.api_path == b.api_path && a.stream == b.stream
            && a.body == b.body,
        field_views(fields).len() == fields.len(),
        0 <= i < fields.len() ==> field_views(fields)[i] == (fields[i].0@, fields[i].1@),
{
}

} // verus!
