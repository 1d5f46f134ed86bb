//! What the command-line client decides before it talks to a server: what
//! its arguments name, and the addresses of its requests.

use crate::heartbeat_manager::{decimal, decimal_text};
use vstd::prelude::*;

verus! {

/// What a command works on.
#[derive(Clone, Copy, Debug, PartialEq, Eq, Structural)]
pub enum Target {
    Directory,
    File,
}

/// What a command does.
#[derive(Clone, Copy, Debug, PartialEq, Eq, Structural)]
pub enum Action {
    Create,
    Read,
    Update,
    Delete,
}

/// The target that a word names.
pub open spec fn target_of(word: Seq<char>) -> Option<Target> {
    if word == "directory"@ || word == "dir"@ || word == "d"@ {
        Some(Target::Directory)
    } else if word == "file"@ || word == "f"@ {
        Some(Target::File)
    } else {
        None
    }
}

/// The action that a word names.
pub open spec fn action_of(word: Seq<char>) -> Option<Action> {
    if word == "create"@ || word == "c"@ {
        Some(Action::Create)
    } else if word == "read"@ || word == "r"@ {
        Some(Action::Read)
    } else if word == "update"@ || word == "u"@ {
        Some(Action::Update)
    } else if word == "delete"@ || word == "d"@ {
        Some(Action::Delete)
    } else {
        None
    }
}

/// Whether `word` is the literal `literal`.
fn is_word(word: &String, literal: &str) -> (same: bool)
    ensures
        same == (word@ == literal@),
{
    *word == literal.to_owned()
}

/// The target that a word of the command line names, if it names one.
pub fn parse_target(word: &str) -> (target: Option<Target>)
    ensures
        target == target_of(word@),
{
    let word = word.to_owned();
    if is_word(&word, "directory") || is_word(&word, "dir") || is_word(&word, "d") {
        Some(Target::Directory)
    } else if is_word(&word, "file") || is_word(&word, "f") {
        Some(Target::File)
    } else {
        None
    }
}

/// The action that a word of the command line names, if it names one.
pub fn parse_action(word: &str) -> (action: Option<Action>)
    ensures
        action == action_of(word@),
{
    let word = word.to_owned();
    if is_word(&word, "create") || is_word(&word, "c") {
        Some(Action::Create)
    } else if is_word(&word, "read") || is_word(&word, "r") {
        Some(Action::Read)
    } else if is_word(&word, "update") || is_word(&word, "u") {
        Some(Action::Update)
    } else if is_word(&word, "delete") || is_word(&word, "d") {
        Some(Action::Delete)
    } else {
        None
    }
}

/// The address of a request to the master about `path`: the master's
/// address, the route, and the path as the query.
pub open spec fn master_url_spec(base: Seq<char>, route: Seq<char>, path: Seq<char>) -> Seq<char> {
    base + route + "?path=/"@ + path
}

/// The address of a request to the master about `path`.
pub fn master_url(base_url: &str, route: &str, path: &str) -> (url: String)
    ensures
        url@ == master_url_spec(base_url@, route@, path@),
{
    let mut url = base_url.to_owned();
    url.append(route);
    url.append("?path=/");
    url.append(path);
    url
}

/// The address of the request that announces a write of `size` bytes.
pub open spec fn update_url_spec(base: Seq<char>, path: Seq<char>, size: nat) -> Seq<char> {
    master_url_spec(base, "/file/update"@, path) + "&size="@ + decimal(size)
}

/// The address of the request that announces a write of `size` bytes to
/// `path`.
pub fn update_url(base_url: &str, path: &str, size: u64) -> (url: String)
    ensures
        url@ == update_url_spec(base_url@, path@, size as nat),
{
    let mut url = master_url(base_url, "/file/update", path);
    url.append("&size=");
    let digits = decimal_text(size);
    url.append(digits.as_str());
    url
}

/// The address of a request to a chunk server about the chunk `id`.
pub open spec fn chunk_url_spec(base: Seq<char>, route: Seq<char>, id: Seq<char>) -> Seq<char> {
    "https://"@ + base + route + "?id="@ + id
}

/// The address of a request to the chunk server at `base_url` about the
/// chunk `id`.
pub fn chunk_url(base_url: &str, route: &str, id: &str) -> (url: String)
    ensures
        url@ == chunk_url_spec(base_url@, route@, id@),
{
    let mut url = "https://".to_owned();
    url.append(base_url);
    url.append(route);
    url.append("?id=");
    url.append(id);
    url
}

} // verus!
