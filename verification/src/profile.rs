//! Persisted data.

use crate::acb::SignedMessage;
use crate::clock::Clock;
use crate::dgm::Operation;
use crate::key::{derived_public_key, SecretKey};
use crate::text::put_together;
use vstd::prelude::*;

verus! {

/// Persisted data of a node.
pub struct Profile {
    pub name: Option<String>,
    pub secret_key: SecretKey,
    pub library_roots: Vec<String>,
    pub group: Option<ProfileGroup>,
}

/// Persisted data of the group of a node.
pub struct ProfileGroup {
    pub group_id: u64,
    pub acb_clock: Clock,
    pub acb_messages: Vec<SignedMessage<Operation>>,
}

/// The directory of the profile with a name.
pub open spec fn directory_of(name: Seq<char>) -> Seq<char> {
    "./data/"@ + name
}

/// The file of the profile with a name.
pub open spec fn path_of(name: Seq<char>) -> Seq<char> {
    directory_of(name) + "/profile.json"@
}

/// The directory of the profile with a name.
pub fn profile_directory(name: &str) -> (directory: String)
    ensures
        directory@ == directory_of(name@),
{
    put_together("./data/", name)
}

/// The file of the profile with a name.
pub fn profile_path(name: &str) -> (path: String)
    ensures
        path@ == path_of(name@),
{
    let directory = profile_directory(name);
    put_together(directory.as_str(), "/profile.json")
}

/// Whether a profile is new: it has a name or none, and nothing else than a
/// key pair.
pub open spec fn is_new(profile: Profile) -> bool {
    &&& profile.library_roots@.len() == 0
    &&& profile.group is None
    &&& profile.secret_key.id().bytes@ == derived_public_key(profile.secret_key.secret())
}

impl Profile {
    /// A new profile, with a new key pair.
    pub fn new(name: Option<String>) -> (profile: Self)
        ensures
            profile.name == name,
            is_new(profile),
    {
        Profile {
            name,
            secret_key: SecretKey::generate(),
            library_roots: Vec::new(),
            group: None,
        }
    }

    /// The profile that was loaded, or a new one with the given name.
    pub fn loaded_or_new(loaded: Option<Profile>, name: &str) -> (profile: Self)
        ensures
            loaded matches Some(known) ==> profile == known,
            loaded is None ==> is_new(profile) && (profile.name matches Some(new_name)
                && new_name@ == name@),
    {
        match loaded {
            Some(profile) => profile,
            None => Self::new(Some(name.to_string())),
        }
    }

    /// The directory and the file that the profile is saved in. Only named
    /// profiles are saved.
    pub fn save_paths(&self) -> (paths: Option<(String, String)>)
        ensures
            paths is Some <==> self.name is Some,
            paths matches Some((directory, file)) ==> directory@ == directory_of(self.name->0@)
                && file@ == path_of(self.name->0@),
    {
        match &self.name {
            None => None,
            Some(name) => Some((profile_directory(name.as_str()), profile_path(name.as_str()))),
        }
    }
}

/// Profiles with different names are saved in different files.
pub proof fn paths_differ(a: Seq<char>, b: Seq<char>)
    requires
        path_of(a) == path_of(b),
    ensures
        a == b,
{
    let head = "./data/"@.len() as int;
    let tail = "/profile.json"@.len() as int;
    assert(path_of(a).len() == head + a.len() + tail);
    assert(path_of(b).len() == head + b.len() + tail);
    assert(a =~= path_of(a).subrange(head, head + a.len()));
    assert(b =~= path_of(b).subrange(head, head + b.len()));
}

/// What the arguments of the program ask for.
pub open spec fn arguments_ask(args: Seq<String>, profile: Result<Option<String>, UsageError>) -> bool {
    if args.len() == 0 {
        profile == Ok::<Option<String>, UsageError>(None)
    } else if args.len() == 1 {
        profile matches Ok(Some(name)) && name@ == args[0]@
    } else {
        profile is Err
    }
}

/// The arguments of the program are not understood.
#[derive(Debug, Clone, Copy, PartialEq, Eq)]
pub struct UsageError;

/// Reads the arguments of the program: at most the name of a profile.
pub fn parse_args(args: &Vec<String>) -> (profile: Result<Option<String>, UsageError>)
    ensures
        arguments_ask(args@, profile),
{
    if args.len() == 0 {
        Ok(None)
    } else if args.len() == 1 {
        Ok(Some(args[0].clone()))
    } else {
        Err(UsageError)
    }
}

/// Where profiles are: each in a directory of its own under `./data/`, which
/// has its name, in the file `profile.json`.
pub proof fn profiles_are_under_data(name: Seq<char>)
    ensures
        directory_of(name) == "./data/"@ + name,
        path_of(name) == "./data/"@ + name + "/profile.json"@,
{
}

/// The arguments of the program: none, one name, or a mistake.
pub proof fn arguments_are_at_most_one_name(
    args: Seq<String>,
    profile: Result<Option<String>, UsageError>,
)
    requires
        arguments_ask(args, profile),
    ensures
        profile is Err <==> args.len() > 1,
        args.len() == 0 ==> profile->Ok_0 is None,
        args.len() == 1 ==> profile->Ok_0 is Some && profile->Ok_0->0@ == args[0]@,
{
}

/// A new profile shares nothing: it has no files and no group.
pub proof fn new_profile_is_empty(profile: Profile)
    requires
        is_new(profile),
    ensures
        profile.library_roots@ == Seq::<String>::empty(),
        profile.group is None,
{
}

} // verus!
