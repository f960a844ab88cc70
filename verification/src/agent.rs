//! The agents that a session can run.

use vstd::prelude::*;
use vstd::string::*;
use crate::text;

verus! {

/// A kind of coding agent.
#[derive(PartialEq, Eq, Debug)]
pub enum AgentType {
    Pi,
    ClaudeCode,
    Codex,
    OpenCode,
    Custom(String),
}

impl Clone for AgentType {
    fn clone(&self) -> (r: Self)
        ensures
            r == *self,
    {
        match self {
            AgentType::Pi => AgentType::Pi,
            AgentType::ClaudeCode => AgentType::ClaudeCode,
            AgentType::Codex => AgentType::Codex,
            AgentType::OpenCode => AgentType::OpenCode,
            AgentType::Custom(name) => AgentType::Custom(name.clone()),
        }
    }
}

/// A name with `sep` before each capital but the first character.
pub open spec fn parted(name: Seq<char>, sep: char) -> Seq<char>
    decreases name.len(),
{
    if name.len() == 0 {
        Seq::empty()
    } else {
        let front = parted(name.drop_last(), sep);
        if name.len() > 1 && 'A' <= name.last() <= 'Z' {
            front.push(sep).push(name.last())
        } else {
            front.push(name.last())
        }
    }
}

/// A name with `sep` before each capital but the first character.
fn part_words(name: &str, sep: char) -> (r: String)
    ensures
        r@ == parted(name@, sep),
{
    let v = text::to_chars(name);
    let mut out = String::new();
    let mut i: usize = 0;
    while i < v.len()
        invariant
            i <= v@.len(),
            v@ == name@,
            out@ == parted(name@.take(i as int), sep),
        decreases v@.len() - i,
    {
        proof {
            assert(name@.take(i + 1).drop_last() =~= name@.take(i as int));
            assert(name@.take(i + 1).last() == v@[i as int]);
        }
        if i > 0 && 'A' <= v[i] && v[i] <= 'Z' {
            out.push(sep);
        }
        out.push(v[i]);
        i += 1;
    }
    proof {
        assert(name@.take(i as int) =~= name@);
    }
    out
}

impl AgentType {
    /// The name by which the actor runtime knows the agent.
    pub open spec fn runtime_name(self) -> Seq<char> {
        match self {
            AgentType::Pi => "pi"@,
            AgentType::ClaudeCode => text::ascii_lower(parted("ClaudeCode"@, '-')),
            AgentType::Codex => "codex"@,
            AgentType::OpenCode => "opencode"@,
            AgentType::Custom(name) => name@,
        }
    }

    /// The name to show.
    pub open spec fn shown_name(self) -> Seq<char> {
        match self {
            AgentType::Pi => "Pi"@,
            AgentType::ClaudeCode => parted("ClaudeCode"@, ' '),
            AgentType::Codex => "OpenAI Codex"@,
            AgentType::OpenCode => "OpenCode"@,
            AgentType::Custom(name) => name@,
        }
    }

    /// The name by which the actor runtime knows the agent.
    pub fn rivet_name(&self) -> (r: String)
        ensures
            r@ == self.runtime_name(),
    {
        match self {
            AgentType::Pi => "pi".to_owned(),
            AgentType::ClaudeCode => {
                let words = part_words("ClaudeCode", '-');
                text::to_ascii_lowercase(words.as_str())
            },
            AgentType::Codex => "codex".to_owned(),
            AgentType::OpenCode => "opencode".to_owned(),
            AgentType::Custom(name) => name.clone(),
        }
    }

    /// The name to show.
    pub fn display_name(&self) -> (r: String)
        ensures
            r@ == self.shown_name(),
    {
        match self {
            AgentType::Pi => "Pi".to_owned(),
            AgentType::ClaudeCode => part_words("ClaudeCode", ' '),
            AgentType::Codex => "OpenAI Codex".to_owned(),
            AgentType::OpenCode => "OpenCode".to_owned(),
            AgentType::Custom(name) => name.clone(),
        }
    }

    /// The environment variables that the agent needs.
    pub fn required_env_keys(&self) -> (r: Vec<&str>)
        ensures
            match *self {
                AgentType::Custom(_) => r@.len() == 0,
                AgentType::Codex => r@.len() == 1 && r@[0]@ == "OPENAI_API_KEY"@,
                _ => r@.len() == 1 && r@[0]@ == "ANTHROPIC_API_KEY"@,
            },
    {
        let mut keys: Vec<&str> = Vec::new();
        match self {
            AgentType::Custom(_) => {},
            AgentType::Codex => {
                keys.push("OPENAI_API_KEY");
            },
            _ => {
                keys.push("ANTHROPIC_API_KEY");
            },
        }
        keys
    }

    /// The agents that need no configuration.
    pub fn all_builtin() -> (r: Vec<AgentType>)
        ensures
            r@ == seq![
                AgentType::Pi,
                AgentType::ClaudeCode,
                AgentType::Codex,
                AgentType::OpenCode,
            ],
    {
        let mut all: Vec<AgentType> = Vec::new();
        all.push(AgentType::Pi);
        all.push(AgentType::ClaudeCode);
        all.push(AgentType::Codex);
        all.push(AgentType::OpenCode);
        all
    }
}

} // verus!
