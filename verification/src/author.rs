//! The author of a cut, as the environment names one.
//!
//! Names and e-mails come from `TACK_AUTHOR_NAME` / `TACK_AUTHOR_EMAIL`, falling
//! back to host-derived defaults, so no personal data is ever hard-coded.
use vstd::prelude::*;
use vstd::string::*;

use crate::text;
use crate::output::text3;
use crate::text::trim;

verus! {

/// The environment variables that name an author, as far as they are set.
#[derive(Debug)]
pub struct AuthorEnv {
    /// `TACK_AUTHOR_NAME`.
    pub author_name: Option<String>,
    /// `TACK_AUTHOR_EMAIL`.
    pub author_email: Option<String>,
    /// `USERNAME`.
    pub username: Option<String>,
    /// `USER`.
    pub user: Option<String>,
    /// `COMPUTERNAME`.
    pub computer_name: Option<String>,
    /// `HOSTNAME`.
    pub hostname: Option<String>,
}

/// Whether a variable says something: it is set to more than white space.
pub open spec fn says(value: Option<String>) -> bool {
    value matches Some(s) && text::trimmed(s@).len() > 0
}

/// The first of the values that says something, or the default.
pub open spec fn first_said(values: Seq<Option<String>>, default: Seq<char>) -> Seq<char>
    decreases values.len(),
{
    if values.len() == 0 {
        default
    } else if says(values[0]) {
        values[0]->Some_0@
    } else {
        first_said(values.skip(1), default)
    }
}

impl AuthorEnv {
    /// The author's name.
    pub open spec fn name(&self) -> Seq<char> {
        first_said(seq![self.author_name, self.username, self.user], "tack"@)
    }

    /// The e-mail address of an author of the given name.
    pub open spec fn email(&self, name: Seq<char>) -> Seq<char> {
        let host = first_said(seq![self.computer_name, self.hostname], "localhost"@);
        first_said(seq![self.author_email], name + "@"@ + host)
    }
}

/// The value of a variable, where it says something.
fn said(value: &Option<String>) -> (r: Option<&String>)
    ensures
        match r {
            Some(s) => says(*value) && *value == Some(*s),
            None => !says(*value),
        },
{
    match value {
        Some(s) => if trim(s.as_str()).as_str().unicode_len() > 0 {
            Some(s)
        } else {
            None
        },
        None => None,
    }
}

/// The first of the values that says something.
fn env_first(values: &[&Option<String>]) -> (r: Option<String>)
    ensures
        match r {
            Some(s) => exists|i: int|
                {
                    &&& 0 <= i < values@.len()
                    &&& says(*#[trigger] values@[i])
                    &&& values@[i]->Some_0@ == s@
                    &&& forall|k: int| 0 <= k < i ==> !says(*#[trigger] values@[k])
                },
            None => forall|k: int| 0 <= k < values@.len() ==> !says(*#[trigger] values@[k]),
        },
{
    let mut i: usize = 0;
    while i < values.len()
        invariant
            i <= values@.len(),
            forall|k: int| 0 <= k < i ==> !says(*#[trigger] values@[k]),
        decreases values.len() - i,
    {
        if let Some(s) = said(values[i]) {
            assert(says(*values@[i as int]));
            return Some(s.clone());
        }
        i += 1;
    }
    None
}

/// The author's name: `TACK_AUTHOR_NAME`, else `USERNAME` or `USER`, else
/// `tack`.
pub fn author_name_from_env(env: &AuthorEnv) -> (r: String)
    ensures
        r@ == env.name(),
{
    let values = [&env.author_name, &env.username, &env.user];
    proof {
        reveal_with_fuel(first_said, 4);
        let all = seq![env.author_name, env.username, env.user];
        assert(all.skip(1) =~= seq![env.username, env.user]);
        assert(all.skip(1).skip(1) =~= seq![env.user]);
        assert(all.skip(1).skip(1).skip(1) =~= seq![]);
        assert(*values@[0] == env.author_name && *values@[1] == env.username && *values@[2]
            == env.user);
    }
    match env_first(&values) {
        Some(name) => name,
        None => "tack".to_owned(),
    }
}

/// The e-mail address of an author of the given name: `TACK_AUTHOR_EMAIL`, else
/// the name at `COMPUTERNAME`, `HOSTNAME` or `localhost`.
pub fn author_email_from_env(env: &AuthorEnv, name: &str) -> (r: String)
    ensures
        r@ == env.email(name@),
{
    let hosts = [&env.computer_name, &env.hostname];
    let emails = [&env.author_email];
    proof {
        reveal_with_fuel(first_said, 3);
        let all = seq![env.computer_name, env.hostname];
        assert(all.skip(1) =~= seq![env.hostname]);
        assert(all.skip(1).skip(1) =~= seq![]);
        assert(seq![env.author_email].skip(1) =~= seq![]);
        assert(*hosts@[0] == env.computer_name && *hosts@[1] == env.hostname && *emails@[0]
            == env.author_email);
    }
    match env_first(&emails) {
        Some(email) => email,
        None => {
            let host = match env_first(&hosts) {
                Some(host) => host,
                None => "localhost".to_owned(),
            };
            text3(name, "@", host.as_str())
        },
    }
}

proof fn lemma_said_is_some(values: Seq<Option<String>>, default: Seq<char>)
    requires
        default.len() > 0,
    ensures
        first_said(values, default).len() > 0,
    decreases values.len(),
{
    if values.len() > 0 {
        if !says(values[0]) {
            lemma_said_is_some(values.skip(1), default);
        }
    }
}

/// An author always has a name and an e-mail address.
pub proof fn lemma_author_is_named(env: AuthorEnv, name: Seq<char>)
    ensures
        env.name().len() > 0,
        env.email(name).len() > 0,
{
    reveal_strlit("tack");
    reveal_strlit("@");
    lemma_said_is_some(seq![env.author_name, env.username, env.user], "tack"@);
    let host = first_said(seq![env.computer_name, env.hostname], "localhost"@);
    lemma_said_is_some(seq![env.author_email], name + "@"@ + host);
}

/// The resolved author identity for a named cut.
#[derive(Debug)]
pub struct Author {
    /// The display name.
    pub name: String,
    /// The e-mail address.
    pub email: String,
}

impl Author {
    /// Resolves the author identity from the environment.
    pub fn from_env(env: &AuthorEnv) -> (r: Self)
        ensures
            r.name@ == env.name(),
            r.email@ == env.email(env.name()),
    {
        let name = author_name_from_env(env);
        let email = author_email_from_env(env, name.as_str());
        Author { name, email }
    }
}

} // verus!
