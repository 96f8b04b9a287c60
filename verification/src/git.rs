use vstd::prelude::*;

use crate::models::GlobalConfig;
use crate::template::{join_path, path_join};

verus! {

// ---------------------------------------------------------------------------
// Decisions around the module catalog's version-control checkout.  The
// network and repository work itself happens outside; the library decides
// which credentials to offer, where the checkout lives, and whether a fetched
// head may be fast-forwarded.
// ---------------------------------------------------------------------------

/// Which credential to offer a remote, from what it accepts and what the
/// configuration holds: plain user/password where the remote takes it; the
/// configured key where one is stored; otherwise the key must be asked for;
/// failing all that, the default credential.
pub enum CredentialPlan {
    UserPass,
    SshStoredKey { path: String, needs_pw: bool },
    SshAskKey,
    DefaultCred,
}

#[verifier::ext_equal]
pub enum CredentialPlanV {
    UserPass,
    SshStoredKey { path: Seq<char>, needs_pw: bool },
    SshAskKey,
    DefaultCred,
}

impl View for CredentialPlan {
    type V = CredentialPlanV;

    open spec fn view(&self) -> CredentialPlanV {
        match self {
            CredentialPlan::UserPass => CredentialPlanV::UserPass,
            CredentialPlan::SshStoredKey { path, needs_pw } => CredentialPlanV::SshStoredKey {
                path: path@,
                needs_pw: *needs_pw,
            },
            CredentialPlan::SshAskKey => CredentialPlanV::SshAskKey,
            CredentialPlan::DefaultCred => CredentialPlanV::DefaultCred,
        }
    }
}

pub fn cred_plan(
    allowed_user_pass: bool,
    allowed_ssh: bool,
    ssh_key: &Option<String>,
    key_needs_pw: bool,
) -> (r: CredentialPlan)
    ensures
        r@ == (if allowed_user_pass {
            CredentialPlanV::UserPass
        } else if allowed_ssh {
            match ssh_key.deep_view() {
                Some(p) => CredentialPlanV::SshStoredKey { path: p, needs_pw: key_needs_pw },
                None => CredentialPlanV::SshAskKey,
            }
        } else {
            CredentialPlanV::DefaultCred
        }),
{
    if allowed_user_pass {
        CredentialPlan::UserPass
    } else if allowed_ssh {
        match ssh_key {
            Some(p) => CredentialPlan::SshStoredKey { path: p.clone(), needs_pw: key_needs_pw },
            None => CredentialPlan::SshAskKey,
        }
    } else {
        CredentialPlan::DefaultCred
    }
}

/// Prepare a checkout with a given key: remember the key and whether it needs
/// a password, and say where the catalog is cloned to.
pub fn check_out_modules_with_key(
    global_config: &mut GlobalConfig,
    ssh_key: &str,
    key_needs_pw: bool,
) -> (r: String)
    ensures
        final(global_config).ssh_key.deep_view() == Some(ssh_key@),
        final(global_config).key_needs_pw == key_needs_pw,
        final(global_config).home@ == old(global_config).home@,
        final(global_config).git_repo@ == old(global_config).git_repo@,
        final(global_config).config_path@ == old(global_config).config_path@,
        r@ == path_join(old(global_config).home@, "git_modules"@),
{
    global_config.key_needs_pw = key_needs_pw;
    global_config.ssh_key = Some(ssh_key.to_owned());
    join_path(global_config.home.as_str(), "git_modules")
}

/// Prepare a checkout over plain user/password credentials: say where the
/// catalog is cloned to.
pub fn check_out_modules_with_pw(global_config: &mut GlobalConfig) -> (r: String)
    ensures
        final(global_config)@ == old(global_config)@,
        r@ == path_join(old(global_config).home@, "git_modules"@),
{
    join_path(global_config.home.as_str(), "git_modules")
}

/// Point the configured catalog path at the checkout directory where the
/// configured path does not exist; an existing path is kept as it is.
pub fn update_git_repo_path(global_config: &mut GlobalConfig, repo_exists: bool)
    ensures
        repo_exists ==> final(global_config)@ == old(global_config)@,
        !repo_exists ==> final(global_config)@ == (crate::models::GlobalConfigV {
            git_repo: path_join(old(global_config).home@, "git_modules"@),
            ..old(global_config)@
        }),
{
    if !repo_exists {
        global_config.git_repo = join_path(global_config.home.as_str(), "git_modules");
    }
}

/// What to do with a fetched head: nothing where the local head is already
/// current, a fast-forward where one is possible, and a refusal otherwise —
/// no other merge is ever attempted.
#[derive(PartialEq, Eq, Structural, Clone, Copy, Debug)]
pub enum MergeAction {
    AlreadyCurrent,
    FastForward,
    Refuse,
}

pub fn fast_forward_action(up_to_date: bool, can_fast_forward: bool) -> (r: MergeAction)
    ensures
        r == (if up_to_date {
            MergeAction::AlreadyCurrent
        } else if can_fast_forward {
            MergeAction::FastForward
        } else {
            MergeAction::Refuse
        }),
{
    if up_to_date {
        MergeAction::AlreadyCurrent
    } else if can_fast_forward {
        MergeAction::FastForward
    } else {
        MergeAction::Refuse
    }
}

} // verus!
