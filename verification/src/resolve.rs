//! Resolving a message to a reply: the trigger, the query tag, the lookup
//! policy and the text of the reply.

use crate::table::{
    is_nearest, lemma_nearest_of_present, lemma_nearest_tag_is, nearest_tag, TagTable,
};
use crate::tagfile::{
    lemma_strip_txt_suffixed, lemma_table_of_keys, lemma_table_of_last_record, table_of,
};
use crate::text::{
    is_space, is_whitespace, lemma_trim_back_is_take, lemma_trim_front_is_skip, trimmed, words,
};
use vstd::prelude::*;
use vstd::string::*;

verus! {

/// The prefix that makes a message a request for help: an exclamation mark,
/// the letter `h` and a space.
pub const TRIGGER: &'static str = "!h ";

/// How a query tag is matched against the table.
#[derive(Clone, Copy, Debug, PartialEq, Eq, Structural)]
pub enum Policy {
    /// Only the tag itself matches.
    Exact,
    /// The tag nearest to the query in lexicographic order matches.
    Nearest,
}

impl Default for Policy {
    /// The exact-match policy, which never answers with a tag other than the
    /// one asked for.
    fn default() -> (policy: Policy)
        ensures
            policy == Policy::Exact,
    {
        Policy::Exact
    }
}

/// `message` begins with the trigger.
pub open spec fn has_trigger(message: Seq<char>) -> bool {
    TRIGGER@.is_prefix_of(message)
}

/// The tag that a triggering `message` asks for: what follows the trigger,
/// without the whitespace around it.
pub open spec fn query_of(message: Seq<char>) -> Seq<char> {
    trimmed(message.skip(TRIGGER@.len() as int))
}

/// The address of the anchor `tag` in the document `file`.
pub open spec fn url_text(file: Seq<char>, tag: Seq<char>) -> Seq<char> {
    "https://neovim.io/doc/user/"@ + file + ".html#"@ + tag
}

/// The reply for a tag that the table does not explain.
pub open spec fn not_found_text(tag: Seq<char>) -> Seq<char> {
    "No help found for "@ + tag + "!"@
}

/// The reply to the query `q` under the exact-match policy.
pub open spec fn exact_text(table: Map<Seq<char>, Seq<char>>, q: Seq<char>) -> Seq<char> {
    if table.contains_key(q) {
        url_text(table[q], q)
    } else {
        not_found_text(q)
    }
}

/// The reply to the query `q` under the nearest-match policy.
pub open spec fn nearest_text(table: Map<Seq<char>, Seq<char>>, q: Seq<char>) -> Seq<char> {
    if table.dom().is_empty() {
        not_found_text(q)
    } else {
        url_text(table[nearest_tag(table.dom(), q)], nearest_tag(table.dom(), q))
    }
}

/// The reply to the query `q` under `policy`.
pub open spec fn answer_text(
    table: Map<Seq<char>, Seq<char>>,
    q: Seq<char>,
    policy: Policy,
) -> Seq<char> {
    match policy {
        Policy::Exact => exact_text(table, q),
        Policy::Nearest => nearest_text(table, q),
    }
}

/// The reply to `message`, if it calls for one.
pub open spec fn reply_text(
    message: Seq<char>,
    table: Map<Seq<char>, Seq<char>>,
    policy: Policy,
) -> Option<Seq<char>> {
    if has_trigger(message) {
        Some(answer_text(table, query_of(message), policy))
    } else {
        None
    }
}

/// What follows the trigger in `message`, or nothing where `message` does
/// not begin with the trigger.
pub fn strip_trigger(message: &str) -> (rest: Option<&str>)
    ensures
        match rest {
            Some(r) => has_trigger(message@) && r@ == message@.skip(TRIGGER@.len() as int),
            None => !has_trigger(message@),
        },
{
    proof {
        reveal_strlit("!h ");
    }
    let n: usize = message.unicode_len();
    if n >= 3 && message.get_char(0) == '!' && message.get_char(1) == 'h' && message.get_char(2)
        == ' ' {
        assert(TRIGGER@ =~= message@.subrange(0, 3));
        Some(message.substring_char(3, n))
    } else {
        proof {
            if has_trigger(message@) {
                assert(TRIGGER@[0] == message@.subrange(0, 3)[0]);
                assert(TRIGGER@[1] == message@.subrange(0, 3)[1]);
                assert(TRIGGER@[2] == message@.subrange(0, 3)[2]);
            }
        }
        None
    }
}

/// The help tag in `msg`: `msg` without the whitespace around it.
pub fn ex_help(msg: &str) -> (tag: &str)
    ensures
        tag@ == trimmed(msg@),
{
    let n: usize = msg.unicode_len();
    let mut start: usize = 0;
    let mut end: usize = 0;
    let mut i: usize = 0;
    for c in it: msg.chars()
        invariant
            it.seq() == msg@,
            n == msg@.len(),
            i == it.index(),
            start <= end <= i,
            end == 0 ==> start == 0,
            forall|k: int| 0 <= k < start ==> is_space(#[trigger] msg@[k]),
            forall|k: int| end <= k < i ==> is_space(#[trigger] msg@[k]),
            end > 0 ==> !is_space(msg@[start as int]) && !is_space(msg@[end - 1]),
    {
        if !is_whitespace(c) {
            if end == 0 {
                start = i;
            }
            end = i + 1;
        }
        i += 1;
    }
    proof {
        let s = msg@;
        if end == 0 {
            lemma_trim_front_is_skip(s, s.len() as int);
            assert(s.skip(s.len() as int) =~= s.subrange(0, 0));
        } else {
            lemma_trim_front_is_skip(s, start as int);
            let t = s.skip(start as int);
            assert forall|k: int| end - start <= k < t.len() implies is_space(#[trigger] t[k]) by {
                assert(t[k] == s[k + start]);
            }
            assert(t[end - start - 1] == s[end - 1]);
            lemma_trim_back_is_take(t, end - start);
            assert(t.take(end - start) =~= s.subrange(start as int, end as int));
        }
    }
    msg.substring_char(start, end)
}

/// The documentation URL of the anchor `tag` in the document `file`.
pub fn help_url(file: &str, tag: &str) -> (url: String)
    ensures
        url@ == url_text(file@, tag@),
{
    let mut url = String::from_str("https://neovim.io/doc/user/");
    url.append(file);
    url.append(".html#");
    url.append(tag);
    url
}

/// The reply that says that `tag` is not in the table.
pub fn not_found(tag: &str) -> (reply: String)
    ensures
        reply@ == not_found_text(tag@),
{
    let mut reply = String::from_str("No help found for ");
    reply.append(tag);
    reply.append("!");
    reply
}

/// Answers `query` under the exact-match policy: the URL of the tag where
/// the table has it, and the not-found reply where it has not.
pub fn exact_reply(table: &TagTable, query: &str) -> (reply: String)
    ensures
        table@.contains_key(query@) ==> reply@ == url_text(table@[query@], query@),
        !table@.contains_key(query@) ==> reply@ == not_found_text(query@),
        reply@ == exact_text(table@, query@),
{
    match table.get(query) {
        Some(entry) => help_url(entry.file.as_str(), query),
        None => not_found(query),
    }
}

/// Answers `query` under the nearest-match policy: the URL of the tag of the
/// table that is nearest to `query`, and the not-found reply where the table
/// is empty.
pub fn nearest_reply(table: &TagTable, query: &str) -> (reply: String)
    ensures
        table@.dom().is_empty() ==> reply@ == not_found_text(query@),
        !table@.dom().is_empty() ==> ({
            let t = nearest_tag(table@.dom(), query@);
            is_nearest(table@.dom(), query@, t) && reply@ == url_text(table@[t], t)
        }),
        reply@ == nearest_text(table@, query@),
{
    match table.nearest(query) {
        Some(entry) => {
            proof {
                lemma_nearest_tag_is(table@.dom(), query@, entry.tag@);
                assert(table@.dom().contains(entry.tag@));
            }
            help_url(entry.file.as_str(), entry.tag.as_str())
        },
        None => not_found(query),
    }
}

/// Answers `query` under `policy`.
pub fn answer(table: &TagTable, query: &str, policy: Policy) -> (reply: String)
    ensures
        reply@ == answer_text(table@, query@, policy),
{
    match policy {
        Policy::Exact => exact_reply(table, query),
        Policy::Nearest => nearest_reply(table, query),
    }
}

/// Resolves `message` against `table`. A message that does not begin with
/// the trigger gets no reply. Any other gets exactly one: the answer to the
/// tag that follows the trigger.
pub fn resolve(message: &str, table: &TagTable, policy: Policy) -> (reply: Option<String>)
    ensures
        match reply {
            Some(r) => reply_text(message@, table@, policy) == Some(r@),
            None => reply_text(message@, table@, policy) is None,
        },
        !has_trigger(message@) ==> reply is None,
        has_trigger(message@) ==> reply is Some,
        has_trigger(message@) && policy == Policy::Exact && table@.contains_key(query_of(message@))
            ==> reply->0@ == url_text(table@[query_of(message@)], query_of(message@)),
        has_trigger(message@) && policy == Policy::Exact && !table@.contains_key(
            query_of(message@),
        ) ==> reply->0@ == not_found_text(query_of(message@)),
{
    match strip_trigger(message) {
        Some(rest) => Some(answer(table, ex_help(rest), policy)),
        None => None,
    }
}

/// A record `tag name.txt` of the tag file, which no later record replaces,
/// makes the exact-match reply to `tag` the URL of the document `name`.
pub proof fn lemma_record_resolves(ls: Seq<Seq<char>>, i: int, name: Seq<char>)
    requires
        0 <= i < ls.len(),
        words(ls[i]).len() >= 2,
        words(ls[i])[1] == name + seq!['.', 't', 'x', 't'],
        forall|j: int|
            i < j < ls.len() && words(#[trigger] ls[j]).len() >= 2 ==> words(ls[j])[0] != words(
                ls[i],
            )[0],
    ensures
        exact_text(table_of(ls), words(ls[i])[0]) == url_text(name, words(ls[i])[0]),
{
    lemma_table_of_last_record(ls, i);
    lemma_strip_txt_suffixed(name);
}

/// A tag that is the first word of no record of the tag file gets the
/// not-found reply under the exact-match policy.
pub proof fn lemma_unlisted_not_found(ls: Seq<Seq<char>>, q: Seq<char>)
    requires
        forall|i: int| 0 <= i < ls.len() && words(#[trigger] ls[i]).len() >= 2 ==> words(ls[i])[0] != q,
    ensures
        exact_text(table_of(ls), q) == not_found_text(q),
{
    if table_of(ls).contains_key(q) {
        lemma_table_of_keys(ls, q);
    }
}

/// Resolving is a function of the message, the table and the policy: two
/// replies to the same message against the same table are the same.
pub proof fn lemma_resolve_idempotent(
    message: Seq<char>,
    table: Map<Seq<char>, Seq<char>>,
    policy: Policy,
    first: Option<Seq<char>>,
    second: Option<Seq<char>>,
)
    requires
        first == reply_text(message, table, policy),
        second == reply_text(message, table, policy),
    ensures
        first == second,
{
}

/// Where the table holds the query tag, the nearest-match policy gives the
/// reply of the exact-match policy.
pub proof fn lemma_nearest_agrees_on_present(table: Map<Seq<char>, Seq<char>>, q: Seq<char>)
    requires
        table.contains_key(q),
    ensures
        nearest_text(table, q) == exact_text(table, q),
{
    lemma_nearest_of_present(table.dom(), q);
}

} // verus!
