//! What a session works with: the mirrors of the service, the election, the
//! voter's key and the key's scope.

use crate::election::Election;
use crate::element::{small_encoding, FieldElement};
use crate::keys::Scope;
use crate::props::Props;
use crate::text::{join, joined, pieces, split, texts};
use vstd::prelude::*;
use vstd::string::StringExecFns;

verus! {

/// The state of a session.
#[derive(Debug)]
pub struct AppState {
    pub urls: Vec<String>,
    pub election: Election,
    pub key: String,
    pub scope: Scope,
}

/// What is read back from the table of named values when a wallet is opened.
#[derive(Debug)]
pub struct Stored {
    pub urls: Vec<String>,
    /// The election as it was written down, still to be read.
    pub election: String,
    pub key: String,
    pub scope: Scope,
}

/// The scope that a flag stands for.
pub open spec fn scope_of(internal: bool) -> Scope {
    if internal {
        Scope::Internal
    } else {
        Scope::External
    }
}

/// The text that a scope is written down as.
pub open spec fn scope_text(scope: Scope) -> Seq<char> {
    match scope {
        Scope::Internal => "true"@,
        Scope::External => "false"@,
    }
}

impl Default for AppState {
    /// A session with no mirror, an election that asks nothing, no key, and the
    /// external scope.
    fn default() -> (r: AppState)
        ensures
            r.urls@.len() == 0,
            r.key@.len() == 0,
            r.scope == Scope::External,
            r.election.name@.len() == 0,
            r.election.question@.len() == 0,
            r.election.start_height == 0,
            r.election.end_height == 0,
            r.election.candidates@.len() == 0,
            !r.election.signature_required,
            r.election.cmx@ == small_encoding(0),
            r.election.nf@ == small_encoding(0),
            r.election.cmx_frontier is None,
    {
        AppState {
            urls: Vec::new(),
            election: Election {
                name: String::new(),
                start_height: 0,
                end_height: 0,
                question: String::new(),
                candidates: Vec::new(),
                signature_required: false,
                cmx: FieldElement::from_small(0),
                nf: FieldElement::from_small(0),
                cmx_frontier: None,
            },
            key: String::new(),
            scope: Scope::External,
        }
    }
}

/// Takes up an election: `urls` names the mirrors, separated by commas.
pub fn set_election(
    state: &mut AppState,
    urls: &str,
    election: Election,
    key: String,
    internal: bool,
)
    ensures
        texts(final(state).urls@) == pieces(urls@, ','),
        final(state).election == election,
        final(state).key == key,
        final(state).scope == scope_of(internal),
{
    state.urls = split(urls, ',');
    state.election = election;
    state.key = key;
    if internal {
        state.scope = Scope::Internal;
    } else {
        state.scope = Scope::External;
    }
}

/// The election of the session.
pub fn get_election(state: &AppState) -> (r: &Election)
    ensures
        *r == state.election,
{
    &state.election
}

/// Writes down what a wallet was opened with.
pub fn store_election(props: &mut Props, url: &str, election: &str, key: &str, internal: &str)
    ensures
        final(props)@ == old(props)@.insert("url"@, url@).insert("election"@, election@).insert(
            "key"@,
            key@,
        ).insert("internal"@, internal@),
{
    props.store_prop("url", url);
    props.store_prop("election", election);
    props.store_prop("key", key);
    props.store_prop("internal", internal);
}

/// Reads back what a wallet was opened with. There is nothing to read back
/// unless the mirrors, the election and the key have all been written down; a
/// scope that has not been written down is the external one.
pub fn load_election(props: &Props) -> (r: Option<Stored>)
    ensures
        r is Some <==> props@.contains_key("url"@) && props@.contains_key("election"@)
            && props@.contains_key("key"@),
        r matches Some(stored) ==> texts(stored.urls@) == pieces(props@["url"@], ',')
            && stored.election@ == props@["election"@] && stored.key@ == props@["key"@]
            && stored.scope == scope_of(
            props@.contains_key("internal"@) && props@["internal"@] == "true"@,
        ),
{
    let urls = match props.load_prop("url") {
        Some(urls) => urls,
        None => {
            return None;
        },
    };
    let election = match props.load_prop("election") {
        Some(election) => election,
        None => {
            return None;
        },
    };
    let key = match props.load_prop("key") {
        Some(key) => key,
        None => {
            return None;
        },
    };
    let scope = match props.load_prop("internal") {
        Some(internal) => {
            if internal == String::from_str("true") {
                Scope::Internal
            } else {
                Scope::External
            }
        },
        None => Scope::External,
    };
    Some(Stored { urls: split(urls.as_str(), ','), election, key, scope })
}

/// Writes the session down: the mirrors on one line with commas between them,
/// the election as `election` gives it, the key, and the scope as `true` for
/// the internal one and `false` for the external one.
pub fn save_db(state: &AppState, election: &str, props: &mut Props)
    ensures
        final(props)@ == old(props)@.insert("url"@, joined(texts(state.urls@), ',')).insert(
            "election"@,
            election@,
        ).insert("key"@, state.key@).insert("internal"@, scope_text(state.scope)),
{
    proof {
        reveal_strlit(",");
    }
    assert(","@ =~= seq![',']);
    let urls = join(&state.urls, ",", ',');
    let internal = match state.scope {
        Scope::Internal => "true",
        Scope::External => "false",
    };
    store_election(props, urls.as_str(), election, state.key.as_str(), internal);
}

/// Takes up the session that was written down, with `election` as read from
/// what `load_election` gave. Returns whether there was one to take up; if not,
/// the session stays as it is.
pub fn open_db(state: &mut AppState, props: &Props, election: Election) -> (r: bool)
    ensures
        r == (props@.contains_key("url"@) && props@.contains_key("election"@)
            && props@.contains_key("key"@)),
        r ==> texts(final(state).urls@) == pieces(props@["url"@], ',') && final(state).election
            == election && final(state).key@ == props@["key"@] && final(state).scope == scope_of(
            props@.contains_key("internal"@) && props@["internal"@] == "true"@,
        ),
        !r ==> *final(state) == *old(state),
{
    match load_election(props) {
        Some(stored) => {
            state.urls = stored.urls;
            state.election = election;
            state.key = stored.key;
            state.scope = stored.scope;
            true
        },
        None => false,
    }
}

} // verus!
