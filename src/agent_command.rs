//! The command that launches an external agent server.
use vstd::prelude::*;

verus! {

/// How to launch an agent server: the program, its arguments and, when set, the
/// environment it runs with.
pub struct AgentServerCommand {
    pub path: String,
    pub args: Vec<String>,
    pub env: Option<Vec<(String, String)>>,
}

/// The user's settings for one agent server.
pub struct AgentServerSettings {
    pub command: AgentServerCommand,
}

/// An external agent that the user can talk to. Its icon and the way it connects
/// belong to the user interface that hosts it.
pub trait AgentServer {
    fn name(&self) -> &'static str;

    fn empty_state_headline(&self) -> &'static str;

    fn empty_state_message(&self) -> &'static str;
}

/// Whether the installed agent server can be used, and if not, what to tell the user.
#[derive(Debug)]
pub enum AgentServerVersion {
    Supported,
    Unsupported { error_message: String, upgrade_message: String, upgrade_command: String },
}

/// The arguments as strings, in order.
pub open spec fn views_of(v: Seq<String>) -> Seq<Seq<char>> {
    v.map_values(|s: String| s@)
}

fn append_args(args: &mut Vec<String>, extra: &Vec<String>)
    ensures
        views_of(final(args)@) == views_of(old(args)@) + views_of(extra@),
{
    let ghost start = args@;
    let mut i: usize = 0;
    while i < extra.len()
        invariant
            i <= extra@.len(),
            views_of(args@) == views_of(start) + views_of(extra@.take(i as int)),
        decreases extra@.len() - i,
    {
        let ghost before = args@;
        args.push(extra[i].clone());
        proof {
            assert(extra@.take(i as int + 1) =~= extra@.take(i as int).push(extra@[i as int]));
            assert(views_of(args@) =~= views_of(before).push(extra@[i as int]@));
            assert(views_of(extra@.take(i as int + 1)) =~= views_of(extra@.take(i as int)).push(extra@[i as int]@));
            assert(views_of(args@) =~= views_of(start) + views_of(extra@.take(i as int + 1)));
        }
        i += 1;
    }
    assert(extra@.take(extra@.len() as int) =~= extra@);
}

impl AgentServerCommand {
    /// The command for an agent server. Configured settings win: their program and
    /// environment, with `extra_args` after their arguments. Without settings, the
    /// binary found on the search path, if any, with `extra_args` alone and the
    /// inherited environment.
    pub fn resolve(extra_args: &Vec<String>, settings: Option<AgentServerSettings>, found_in_path: Option<String>) -> (r:
        Option<Self>)
        ensures
            match settings {
                Some(s) => r matches Some(c) && c.path == s.command.path && c.env == s.command.env
                    && views_of(c.args@) == views_of(s.command.args@) + views_of(extra_args@),
                None => match found_in_path {
                    Some(p) => r matches Some(c) && c.path == p && c.env.is_none() && views_of(c.args@) == views_of(
                        extra_args@,
                    ),
                    None => r.is_none(),
                },
            },
    {
        match settings {
            Some(agent_settings) => {
                let command = agent_settings.command;
                let mut args = command.args;
                append_args(&mut args, extra_args);
                Some(AgentServerCommand { path: command.path, args, env: command.env })
            },
            None => match found_in_path {
                Some(path) => {
                    let mut args: Vec<String> = Vec::new();
                    append_args(&mut args, extra_args);
                    proof {
                        assert(views_of(Seq::<String>::empty()) =~= Seq::<Seq<char>>::empty());
                        assert(Seq::<Seq<char>>::empty() + views_of(extra_args@) =~= views_of(extra_args@));
                    }
                    Some(AgentServerCommand { path, args, env: None })
                },
                None => None,
            },
        }
    }
}

} // verus!
