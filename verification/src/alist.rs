//! Named AList connections shared by the tasks.
use vstd::prelude::*;
use crate::alist2strm::runner::{is_blank_string, present_nonempty, present_trimmed, Authentication};

verus! {

/// One AList connection (its request interval is kept by the caller).
pub struct AlistConfig {
    /// The id tasks use to refer to this connection.
    pub id: String,
    /// Address of the AList server; the scheme may be omitted.
    pub base_url: String,
    pub public_url: Option<String>,
    pub username: Option<String>,
    pub password: Option<String>,
    pub otp_code: Option<String>,
    pub token: Option<String>,
}

/// The authentication of a connection: the token when one is set (not blank),
/// else user name and password when both are set (not empty), else none.
pub fn client_authentication(config: &AlistConfig) -> (r: Option<Authentication>)
    ensures
        present_trimmed(config.token) ==> (r matches Some(Authentication::Token(t)) && t@ == config.token->0@),
        !present_trimmed(config.token) && present_nonempty(config.username) && present_nonempty(config.password)
            ==> (r matches Some(Authentication::UsernamePassword { username, password, otp_code })
                && username@ == config.username->0@ && password@ == config.password->0@
                && otp_code == config.otp_code),
        !present_trimmed(config.token) && !(present_nonempty(config.username) && present_nonempty(config.password))
            ==> r is None,
{
    match &config.token {
        Some(t) => {
            if !is_blank_string(t) {
                return Some(Authentication::Token(t.clone()));
            }
        },
        None => {},
    }
    match (&config.username, &config.password) {
        (Some(u), Some(p)) => {
            if !u.as_str().is_empty() && !p.as_str().is_empty() {
                Some(Authentication::UsernamePassword {
                    username: u.clone(),
                    password: p.clone(),
                    otp_code: config.otp_code.clone(),
                })
            } else {
                None
            }
        },
        _ => None,
    }
}

/// The address written into `.strm` files: the public one when set, else the base one.
pub fn server_url(config: &AlistConfig) -> (r: String)
    ensures
        r@ == match config.public_url {
            Some(p) => p@,
            None => config.base_url@,
        },
{
    match &config.public_url {
        Some(p) => p.clone(),
        None => config.base_url.clone(),
    }
}

/// The connection at `j` gets the client of its id: its client was built,
/// and that of no earlier connection with the same id was.
pub open spec fn is_kept(configs: Seq<AlistConfig>, built: Seq<bool>, j: int) -> bool {
    &&& built[j]
    &&& forall|k: int| 0 <= k < j && configs[k].id@ == configs[j].id@ ==> !built[k]
}

/// Whether a connection before `j` with the id of the one at `j` got a client,
/// given the build outcomes of the connections before `j`. A connection whose
/// id is taken is skipped without building its client.
pub fn id_taken(configs: &Vec<AlistConfig>, built: &Vec<bool>, j: usize) -> (b: bool)
    requires
        j < configs@.len(),
        j <= built@.len(),
    ensures
        b == exists|k: int| 0 <= k < j && configs@[k].id@ == configs@[j as int].id@ && built@[k],
{
    let mut k: usize = 0;
    while k < j
        invariant
            k <= j < configs@.len(),
            j <= built@.len(),
            forall|m: int| 0 <= m < k ==> !(configs@[m].id@ == configs@[j as int].id@ && built@[m]),
        decreases j - k,
    {
        if built[k] && crate::alist2strm::runner::string_eq(&configs[k].id, &configs[j].id) {
            return true;
        }
        k += 1;
    }
    false
}

/// The connections that get a client, in order, given whether the client of
/// each one was built: the first connection of each id whose client was
/// built. A connection whose client failed leaves its id to a later one.
pub fn unique_connections(configs: &Vec<AlistConfig>, built: &Vec<bool>) -> (r: Vec<usize>)
    requires
        built@.len() == configs@.len(),
    ensures
        forall|a: int| 0 <= a < r@.len() ==> r@[a] < configs@.len() && is_kept(configs@, built@, r@[a] as int),
        forall|j: int| 0 <= j < configs@.len() && is_kept(configs@, built@, j) ==> r@.contains(j as usize),
        forall|a: int, b: int| 0 <= a < b < r@.len() ==> r@[a] < r@[b],
{
    let mut r: Vec<usize> = Vec::new();
    let mut i: usize = 0;
    while i < configs.len()
        invariant
            i <= configs@.len(),
            built@.len() == configs@.len(),
            forall|a: int| 0 <= a < r@.len() ==> r@[a] < i && is_kept(configs@, built@, r@[a] as int),
            forall|j: int| 0 <= j < i && is_kept(configs@, built@, j) ==> r@.contains(j as usize),
            forall|a: int, b: int| 0 <= a < b < r@.len() ==> r@[a] < r@[b],
        decreases configs.len() - i,
    {
        if built[i] && !id_taken(configs, built, i) {
            let ghost old_r = r@;
            r.push(i);
            assert forall|j: int| 0 <= j < i + 1 && is_kept(configs@, built@, j) implies r@.contains(j as usize) by {
                if j < i {
                    let a = choose|a: int| 0 <= a < old_r.len() && old_r[a] == j as usize;
                    assert(r@[a] == j as usize);
                } else {
                    assert(r@[old_r.len() as int] == i);
                }
            }
        }
        i += 1;
    }
    r
}

/// Each id gets at most one client: two connections that get a client have
/// different ids.
pub proof fn law_one_client_per_id(configs: Seq<AlistConfig>, built: Seq<bool>, a: int, b: int)
    requires
        0 <= a < b < configs.len(),
        is_kept(configs, built, a),
        is_kept(configs, built, b),
    ensures
        configs[a].id@ != configs[b].id@,
{
}

} // verus!
