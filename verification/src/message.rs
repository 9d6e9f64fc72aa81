//! The messages of a conversation, as they arrive, as they are counted and
//! summarised, and as they are passed on.
use crate::json;
use crate::json::JsonTree;
use vstd::prelude::*;

verus! {

/// One message of a conversation.
#[derive(Debug)]
pub struct Msg {
    pub role: String,
    pub content: String,
    /// The rest of the message: `tool_calls` on an assistant turn,
    /// `tool_call_id` and `name` on a tool result. None of it is read here, but
    /// a coding agent's entire loop is carried in those fields, so they are
    /// kept beside the text and written back out untouched. Dropping them
    /// leaves the model answering a conversation in which it never called a
    /// tool and never saw a result.
    pub extra: serde_json::Map<String, serde_json::Value>,
}

/// What a message says.
pub struct Message {
    pub role: Seq<char>,
    pub content: Seq<char>,
    pub extra: Map<Seq<char>, JsonTree>,
}

impl View for Msg {
    type V = Message;

    open spec fn view(&self) -> Message {
        Message {
            role: self.role@,
            content: self.content@,
            extra: json::json_fields(self.extra),
        }
    }
}

/// What the messages of a list say.
pub open spec fn said(s: Seq<Msg>) -> Seq<Message> {
    Seq::new(s.len(), |i: int| s[i]@)
}

impl Message {
    /// The message as text, for counting and summarising. A turn that is only
    /// a tool call carries no content, so the call itself stands in for it;
    /// otherwise every such turn would measure as zero tokens and vanish from
    /// a summary.
    pub open spec fn text(self) -> Seq<char> {
        if !self.extra.dom().contains("tool_calls"@) {
            self.content
        } else {
            let calls = json::json_render(self.extra["tool_calls"@]);
            if self.content.len() == 0 {
                calls
            } else {
                self.content + "\n"@ + calls
            }
        }
    }

    /// The message as JSON: its text and role beside the rest, which wins where
    /// it names either.
    pub open spec fn tree(self) -> JsonTree {
        let with_role = if self.extra.dom().contains("role"@) {
            self.extra
        } else {
            self.extra.insert("role"@, JsonTree::Text(self.role))
        };
        JsonTree::Object(
            if self.extra.dom().contains("content"@) {
                with_role
            } else {
                with_role.insert("content"@, JsonTree::Text(self.content))
            },
        )
    }
}

/// The trees of a list of messages.
pub open spec fn message_trees(s: Seq<Message>) -> Seq<JsonTree> {
    Seq::new(s.len(), |i: int| s[i].tree())
}

impl Msg {
    /// A message that is nothing but text.
    pub fn new(role: &str, content: &str) -> (r: Msg)
        ensures
            r@ == (Message { role: role@, content: content@, extra: json::without_fields() }),
    {
        Msg { role: role.to_owned(), content: content.to_owned(), extra: json::no_fields() }
    }

    /// The message as text, for counting and summarising.
    pub fn text(&self) -> (r: String)
        ensures
            r@ == self@.text(),
    {
        match json::field(&self.extra, "tool_calls") {
            None => self.content.clone(),
            Some(calls) => {
                let rendered = json::render(calls);
                if self.content.as_str().is_empty() {
                    rendered
                } else {
                    let mut r = self.content.clone();
                    r.append("\n");
                    r.append(rendered.as_str());
                    r
                }
            },
        }
    }

    /// The message as JSON.
    pub fn to_json(&self) -> (r: serde_json::Value)
        ensures
            json::json_tree(r) == self@.tree(),
    {
        let mut fields = json::copy_fields(&self.extra);
        if json::field(&self.extra, "role").is_none() {
            json::set_field(&mut fields, "role", json::text_value(self.role.as_str()));
        }
        if json::field(&self.extra, "content").is_none() {
            json::set_field(&mut fields, "content", json::text_value(self.content.as_str()));
        }
        json::object_value(fields)
    }
}

impl Clone for Msg {
    fn clone(&self) -> (r: Msg)
        ensures
            r@ == self@,
    {
        Msg {
            role: self.role.clone(),
            content: self.content.clone(),
            extra: json::copy_fields(&self.extra),
        }
    }
}

impl Default for Msg {
    fn default() -> (r: Msg)
        ensures
            r@ == (Message {
                role: Seq::empty(),
                content: Seq::empty(),
                extra: json::without_fields(),
            }),
    {
        Msg { role: String::new(), content: String::new(), extra: json::no_fields() }
    }
}

/// The messages as JSON.
pub fn to_json(messages: &[Msg]) -> (r: serde_json::Value)
    ensures
        json::json_tree(r) == JsonTree::Array(message_trees(said(messages@))),
{
    let mut items: Vec<serde_json::Value> = Vec::new();
    let ghost want = message_trees(said(messages@));
    let mut i: usize = 0;
    while i < messages.len()
        invariant
            i <= messages@.len(),
            want == message_trees(said(messages@)),
            json::json_trees(items@) == want.take(i as int),
        decreases messages@.len() - i,
    {
        let v = messages[i].to_json();
        assert(json::json_trees(items@.push(v)) =~= json::json_trees(items@).push(
            json::json_tree(v),
        ));
        assert(want.take(i as int).push(json::json_tree(v)) =~= want.take(i + 1));
        items.push(v);
        i = i + 1;
    }
    assert(want.take(i as int) =~= want);
    json::array_value(items)
}

/// A message of its own fields reads back as it was: what stands beside the
/// text survives untouched.
pub proof fn law_nothing_is_lost_on_the_way_out(m: Message)
    requires
        !m.extra.dom().contains("role"@),
        !m.extra.dom().contains("content"@),
    ensures
        m.tree().child("role"@) == Some(JsonTree::Text(m.role)),
        m.tree().child("content"@) == Some(JsonTree::Text(m.content)),
        forall|k: Seq<char>| #[trigger]
            m.extra.dom().contains(k) ==> m.tree().child(k) == Some(m.extra[k]),
        forall|k: Seq<char>|
            (#[trigger] m.tree().child(k)) is Some ==> m.extra.dom().contains(k) || k == "role"@
                || k == "content"@,
{
    reveal_strlit("role");
    reveal_strlit("content");
    assert("role"@.len() != "content"@.len());
}

/// A message that is nothing but a tool call is not counted as nothing.
pub proof fn law_a_tool_call_stands_in_for_its_turn(m: Message)
    requires
        m.extra.dom().contains("tool_calls"@),
        m.content.len() == 0,
    ensures
        m.text() == json::json_render(m.extra["tool_calls"@]),
{
}

// ---------------------------------------------------------------- reading

/// The texts of content parts, one after another; a part without one is passed
/// over.
pub open spec fn parts_text(s: Seq<JsonTree>) -> Seq<char>
    decreases s.len(),
{
    if s.len() == 0 {
        Seq::empty()
    } else {
        parts_text(s.drop_last()) + match part_text(s.last()) {
            Some(t) => t,
            None => Seq::empty(),
        }
    }
}

pub open spec fn part_text(t: JsonTree) -> Option<Seq<char>> {
    match t.child("text"@) {
        Some(c) => c.text(),
        None => None,
    }
}

/// The text of a message's content, whatever shape it has.
pub open spec fn content_text(t: JsonTree) -> Seq<char> {
    match t {
        JsonTree::Text(s) => s,
        JsonTree::Array(parts) => parts_text(parts),
        _ => Seq::empty(),
    }
}

/// Read a message's text whatever shape it arrived in. An OpenAI client sends
/// a string, `null` for a turn that is only a tool call, or an array of content
/// parts; refusing the last two rejects the whole conversation with an error
/// the client cannot act on.
pub fn message_text(content: &serde_json::Value) -> (r: String)
    ensures
        r@ == content_text(json::json_tree(*content)),
{
    if let Some(s) = json::as_str(content) {
        return s.to_owned();
    }
    let mut r = String::new();
    if let Some(parts) = json::as_array(content) {
        let ghost all = json::json_trees(parts@);
        let mut i: usize = 0;
        assert(all.take(0) =~= Seq::<JsonTree>::empty());
        while i < parts.len()
            invariant
                i <= parts@.len(),
                all == json::json_trees(parts@),
                r@ == parts_text(all.take(i as int)),
            decreases parts@.len() - i,
        {
            assert(all.take(i + 1).drop_last() =~= all.take(i as int));
            let ghost before = r@;
            assert(before + Seq::<char>::empty() =~= before);
            if let Some(t) = json::get(&parts[i], "text") {
                if let Some(s) = json::as_str(t) {
                    r.append(s);
                }
            }
            i = i + 1;
        }
        assert(all.take(i as int) =~= all);
    }
    r
}

} // verus!
