//! What a frontend of a node shows, and what it does with what is typed in.

use crate::events::{NodeEvent, Snapshot};
use crate::proto::EnrollResponse;
use crate::text::{trim_text, trimmed};
use crate::worker::{server_base, without_slashes, NodeConfig};
use vstd::prelude::*;

verus! {

/// What a frontend needs to draw itself.
pub struct UiState {
    pub enrolled: bool,
    pub name: String,
    pub server: String,
    pub version: String,
    pub snapshot: Snapshot,
}

/// What a frontend shows of a node with or without a configuration.
pub fn ui_state(cfg: &Option<NodeConfig>, version: &str, snapshot: Snapshot) -> (res: UiState)
    ensures
        res.enrolled == (cfg is Some),
        match cfg {
            Some(c) => res.name@ == c.name@ && res.server@ == c.server@,
            None => res.name@.len() == 0 && res.server@.len() == 0,
        },
        res.version@ == version@,
        res.snapshot == snapshot,
{
    match cfg {
        Some(c) => UiState {
            enrolled: true,
            name: c.name.clone(),
            server: c.server.clone(),
            version: version.to_string(),
            snapshot,
        },
        None => UiState {
            enrolled: false,
            name: String::new(),
            server: String::new(),
            version: version.to_string(),
            snapshot,
        },
    }
}

/// A form for enrolling, as it is sent.
pub struct EnrollForm {
    pub server: String,
    pub name: String,
    pub invite: String,
}

/// A form is taken without the blanks around its fields, unless the node is
/// enrolled.
pub open spec fn is_form(
    enrolled: bool,
    server: Seq<char>,
    name: Seq<char>,
    invite: Seq<char>,
    res: Result<EnrollForm, String>,
) -> bool {
    match res {
        Ok(form) => {
            &&& !enrolled
            &&& form.server@ == without_slashes(trimmed(server))
            &&& form.name@ == trimmed(name)
            &&& form.invite@ == trimmed(invite)
        },
        Err(e) => enrolled && e@ == "already enrolled"@,
    }
}

/// Takes a form for enrolling; a node is enrolled only once.
pub fn enroll_form(cfg: &Option<NodeConfig>, server: &str, name: &str, invite: &str) -> (res:
    Result<EnrollForm, String>)
    ensures
        is_form(cfg is Some, server@, name@, invite@, res),
{
    if cfg.is_some() {
        return Err("already enrolled".to_string());
    }
    Ok(
        EnrollForm {
            server: server_base(trim_text(server).as_str()),
            name: trim_text(name),
            invite: trim_text(invite),
        },
    )
}

/// The configuration of a node that a server took in.
pub fn enrolled(form: &EnrollForm, answer: EnrollResponse, riot_key: &str) -> (res: NodeConfig)
    ensures
        res.server@ == form.server@,
        res.name@ == answer.name@,
        res.token@ == answer.token@,
        res.riot_api_key@ == trimmed(riot_key@),
{
    NodeConfig {
        server: form.server.clone(),
        name: answer.name,
        token: answer.token,
        riot_api_key: trim_text(riot_key),
    }
}

/// A node that is enrolled has a new key; nothing else of it changed.
pub open spec fn is_rekeyed(
    cfg: Option<NodeConfig>,
    key: Seq<char>,
    res: Result<NodeConfig, String>,
) -> bool {
    match res {
        Ok(c) => cfg matches Some(old) && c.server@ == old.server@ && c.name@ == old.name@
            && c.token@ == old.token@ && c.riot_api_key@ == trimmed(key),
        Err(e) => cfg is None && e@ == "not enrolled"@,
    }
}

/// A configuration with a new key; there must be one.
pub fn with_key(cfg: &Option<NodeConfig>, key: &str) -> (res: Result<NodeConfig, String>)
    ensures
        is_rekeyed(*cfg, key@, res),
{
    match cfg {
        Some(c) => Ok(
            NodeConfig {
                server: c.server.clone(),
                name: c.name.clone(),
                token: c.token.clone(),
                riot_api_key: trim_text(key),
            },
        ),
        None => Err("not enrolled".to_string()),
    }
}

/// What becomes of the notice that a new key is needed.
#[derive(Clone, Copy, Debug, PartialEq, Eq, Structural)]
pub enum Notice {
    Show,
    Withdraw,
    Keep,
}

/// The notice comes when the key is refused, and goes when there is a new one.
pub open spec fn notice_of(event: NodeEvent) -> Notice {
    match event {
        NodeEvent::KeyBad => Notice::Show,
        NodeEvent::KeyOk => Notice::Withdraw,
        _ => Notice::Keep,
    }
}

/// What an event does to the notice.
pub fn notice_for(event: &NodeEvent) -> (res: Notice)
    ensures
        res == notice_of(*event),
{
    match event {
        NodeEvent::KeyBad => Notice::Show,
        NodeEvent::KeyOk => Notice::Withdraw,
        _ => Notice::Keep,
    }
}

} // verus!
