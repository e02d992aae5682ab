//! Decisions of the controller's registration and discovery exchanges.
//! The HTTP requests themselves are made outside this module.
use crate::models::{HueConfig, LightNode};
use vstd::prelude::*;
use vstd::string::*;

verus! {

/// Result code of a registration refused because the link button was not
/// pressed.
pub const LINK_BUTTON_NOT_PRESSED: i32 = 101;

/// Why a request to the controller failed.
#[derive(Debug, Clone, PartialEq, Eq)]
pub enum HueError {
    LinkButtonNotPressed,
    ApiError(String),
    DiscoveryFailed,
    Network(String),
}

/// One item of a registration response.
#[derive(Debug, Clone)]
pub enum RegisterItem {
    Success { username: String, clientkey: String },
    Error { error_type: i32, description: String },
}

pub struct HueClient;

pub open spec fn starts_with_http(s: Seq<char>) -> bool {
    s.len() >= 4 && s[0] == 'h' && s[1] == 't' && s[2] == 't' && s[3] == 'p'
}

impl HueClient {
    /// The registration endpoint: `<ip>/api` where `ip` already names a
    /// scheme, else `http://<ip>/api`.
    pub fn register_url(ip: &str) -> (r: String)
        ensures
            r@ == if starts_with_http(ip@) {
                ip@ + "/api"@
            } else {
                "http://"@ + ip@ + "/api"@
            },
    {
        let n = ip.unicode_len();
        let has_scheme = n >= 4 && ip.get_char(0) == 'h' && ip.get_char(1) == 't' && ip.get_char(2)
            == 't' && ip.get_char(3) == 'p';
        if has_scheme {
            let mut url = ip.to_owned();
            url.append("/api");
            url
        } else {
            let mut url = "http://".to_owned();
            url.append(ip);
            url.append("/api");
            url
        }
    }

    /// The outcome of a registration at `ip` from the response's items: the
    /// first item decides; none at all is an error.
    pub fn registration_result(ip: &str, items: &[RegisterItem]) -> (r: Result<HueConfig, HueError>)
        ensures
            items@.len() == 0 ==> r is Err && r->Err_0 is ApiError,
            items@.len() > 0 ==> match items@[0] {
                RegisterItem::Success { username, clientkey } => r is Ok && r->Ok_0.ip@ == ip@
                    && r->Ok_0.username@ == username@ && r->Ok_0.client_key@ == clientkey@,
                RegisterItem::Error { error_type, description } => r is Err && if error_type
                    == LINK_BUTTON_NOT_PRESSED {
                    r->Err_0 is LinkButtonNotPressed
                } else {
                    r->Err_0 == HueError::ApiError(description)
                },
            },
    {
        if items.len() == 0 {
            return Err(HueError::ApiError("Empty response from Hue Bridge".to_owned()));
        }
        match &items[0] {
            RegisterItem::Success { username, clientkey } => Ok(
                HueConfig {
                    ip: ip.to_owned(),
                    username: username.clone(),
                    client_key: clientkey.clone(),
                },
            ),
            RegisterItem::Error { error_type, description } => {
                if *error_type == LINK_BUTTON_NOT_PRESSED {
                    Err(HueError::LinkButtonNotPressed)
                } else {
                    Err(HueError::ApiError(description.clone()))
                }
            },
        }
    }
}

/// The address of the first bridge that discovery reported.
pub fn first_bridge(addresses: &[String]) -> (r: Result<String, HueError>)
    ensures
        addresses@.len() == 0 ==> r == Err::<String, HueError>(HueError::DiscoveryFailed),
        addresses@.len() > 0 ==> r is Ok && r->Ok_0@ == addresses@[0]@,
{
    if addresses.len() == 0 {
        Err(HueError::DiscoveryFailed)
    } else {
        Ok(addresses[0].clone())
    }
}

/// `text` holds `pat` starting at byte `i`.
pub open spec fn occurs_at(text: Seq<u8>, pat: Seq<u8>, i: int) -> bool {
    0 <= i && i + pat.len() <= text.len() && text.subrange(i, i + pat.len()) == pat
}

/// `text` holds `pat` somewhere.
pub open spec fn occurs_in(text: Seq<u8>, pat: Seq<u8>) -> bool {
    exists|i: int| occurs_at(text, pat, i)
}

/// The bytes of `"error"`, quotes included, as a JSON key appears.
pub open spec fn error_key() -> Seq<u8> {
    seq![34u8, 101u8, 114u8, 114u8, 111u8, 114u8, 34u8]
}

fn occurs(text: &[u8], pat: &[u8]) -> (r: bool)
    ensures
        r == occurs_in(text@, pat@),
{
    if pat.len() > text.len() {
        assert forall|i: int| !occurs_at(text@, pat@, i) by {}
        return false;
    }
    let n = text.len();
    let last = n - pat.len();
    let mut i: usize = 0;
    while i <= last
        invariant
            n == text@.len(),
            pat@.len() <= text@.len(),
            last == text@.len() - pat@.len(),
            forall|j: int| 0 <= j < i ==> !#[trigger] occurs_at(text@, pat@, j),
        decreases last + 1 - i,
    {
        let mut k: usize = 0;
        let mut same = true;
        while k < pat.len()
            invariant
                i <= last,
                n == text@.len(),
                pat@.len() <= text@.len(),
                last == text@.len() - pat@.len(),
                k <= pat@.len(),
                same == (forall|m: int| 0 <= m < k ==> text@[i + m] == pat@[m]),
            decreases pat@.len() - k,
        {
            if text[i + k] != pat[k] {
                same = false;
            }
            k = k + 1;
        }
        if same {
            assert(text@.subrange(i as int, i + pat@.len()) =~= pat@);
            assert(occurs_at(text@, pat@, i as int));
            return true;
        }
        assert(!occurs_at(text@, pat@, i as int)) by {
            if text@.subrange(i as int, i + pat@.len()) == pat@ {
                assert forall|m: int| 0 <= m < pat@.len() implies text@[i + m] == pat@[m] by {
                    assert(text@.subrange(i as int, i + pat@.len())[m] == text@[i + m]);
                }
            }
        }
        if i == last {
            return false;
        }
        i = i + 1;
    }
    false
}

/// The outcome of switching streaming on or off, from the response body:
/// a body that holds an `"error"` key is an `ApiError`.
pub fn stream_toggle_result(response: &str) -> (r: Result<(), HueError>)
    ensures
        r is Err <==> occurs_in(response.spec_bytes(), error_key()),
        r is Err ==> r->Err_0 is ApiError,
{
    let key: [u8; 7] = [34u8, 101u8, 114u8, 114u8, 111u8, 114u8, 34u8];
    assert(key@ =~= error_key());
    if occurs(response.as_bytes(), &key) {
        let mut message = "Failed to activate stream: ".to_owned();
        message.append(response);
        Err(HueError::ApiError(message))
    } else {
        Ok(())
    }
}

/// The same characters.
fn same_text(a: &str, b: &str) -> (r: bool)
    ensures
        r == (a@ == b@),
{
    let n = a.unicode_len();
    if n != b.unicode_len() {
        return false;
    }
    let mut i: usize = 0;
    while i < n
        invariant
            n == a@.len(),
            n == b@.len(),
            i <= n,
            forall|j: int| 0 <= j < i ==> a@[j] == b@[j],
        decreases n - i,
    {
        if a.get_char(i) != b.get_char(i) {
            return false;
        }
        i = i + 1;
    }
    assert(a@ =~= b@);
    true
}

/// An entertainment area: its numeric id, the UUID that streaming uses,
/// its name and its channels.
#[derive(Debug, Clone)]
pub struct GroupInfo {
    pub id: String,
    pub stream_id: String,
    pub name: String,
    pub lights: Vec<LightNode>,
}

/// The UUID of the last configuration among the first `m` of `configs`
/// (name, UUID) that carries `name`.
pub open spec fn uuid_for(name: Seq<char>, configs: Seq<(String, String)>, m: int) -> Option<Seq<char>>
    decreases m,
{
    if m <= 0 {
        None
    } else if configs[m - 1].0@ == name {
        Some(configs[m - 1].1@)
    } else {
        uuid_for(name, configs, m - 1)
    }
}

/// The area that a group listing describes, if its type is
/// `Entertainment`. Its streaming UUID comes from the configuration of the
/// same name (the last one listed); without one, the numeric id stands in.
pub fn entertainment_group(
    id: String,
    name: String,
    group_type: &str,
    lights: Vec<LightNode>,
    configs: &[(String, String)],
) -> (r: Option<GroupInfo>)
    ensures
        r is Some <==> group_type@ == "Entertainment"@,
        r matches Some(g) ==> {
            &&& g.id@ == id@
            &&& g.name@ == name@
            &&& g.lights@ == lights@
            &&& g.stream_id@ == match uuid_for(name@, configs@, configs@.len() as int) {
                Some(u) => u,
                None => id@,
            }
        },
{
    if !same_text(group_type, "Entertainment") {
        return None;
    }
    let mut i: usize = configs.len();
    let mut found: Option<String> = None;
    while i > 0
        invariant
            i <= configs@.len(),
            uuid_for(name@, configs@, configs@.len() as int) == match found {
                Some(u) => Some(u@),
                None => uuid_for(name@, configs@, i as int),
            },
            found is Some ==> i == 0,
        decreases i,
    {
        if same_text(configs[i - 1].0.as_str(), name.as_str()) {
            found = Some(configs[i - 1].1.clone());
            i = 0;
        } else {
            i = i - 1;
        }
    }
    let stream_id = match found {
        Some(u) => u,
        None => id.clone(),
    };
    Some(GroupInfo { id, stream_id, name, lights })
}

} // verus!
