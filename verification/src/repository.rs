//! A repository: a published package line, its signing key and the address
//! under which it was last known.

use vstd::prelude::*;
use crate::config::ValidationError;
use crate::metadata::is_given;
use crate::text::{decimal, push_decimal};

verus! {

/// What a repository descriptor holds.
#[derive(Debug, Clone, PartialEq, Eq)]
pub struct Repository {
    pub name: String,
    /// The identity of the key that the repository is published under.
    pub key: String,
    /// The address that the repository referred to before the next push.
    pub reference: String,
}

/// What a push reports: the address that the repository resolves to now,
/// beside the one it referred to before.
#[derive(Debug, Clone, PartialEq, Eq)]
pub struct PushReport {
    pub reference: String,
    pub resolved: String,
}

/// The priority that a repository is added with.
pub const DEFAULT_PRIORITY: u64 = 10;

/// The address under which the name of a key resolves.
pub open spec fn name_address_of(key: Seq<char>) -> Seq<char> {
    "/ipns/"@ + key
}

/// The line that gives a repository its priority.
pub open spec fn priority_line_of(repository: Seq<char>, priority: nat) -> Seq<char> {
    repository + " = "@ + decimal(priority) + "\n"@
}

impl Repository {
    /// The repository that a descriptor declares, from the fields as they
    /// were found. All three are required; the first that is missing or
    /// empty is named.
    pub fn from_document(name: Option<String>, key: Option<String>, reference: Option<String>) -> (
        result: Result<Repository, ValidationError>)
        ensures
            match result {
                Ok(repository) => {
                    &&& is_given(name)
                    &&& is_given(key)
                    &&& is_given(reference)
                    &&& repository.name@ == name->0@
                    &&& repository.key@ == key->0@
                    &&& repository.reference@ == reference->0@
                },
                Err(ValidationError::MissingField(field)) => if !is_given(name) {
                    field@ == "name"@
                } else if !is_given(key) {
                    field@ == "key"@
                } else {
                    !is_given(reference) && field@ == "reference"@
                },
                Err(_) => false,
            },
    {
        let name = match name {
            Some(text) if !text.as_str().is_empty() => text,
            _ => {
                return Err(ValidationError::MissingField("name".to_string()));
            },
        };
        let key = match key {
            Some(text) if !text.as_str().is_empty() => text,
            _ => {
                return Err(ValidationError::MissingField("key".to_string()));
            },
        };
        let reference = match reference {
            Some(text) if !text.as_str().is_empty() => text,
            _ => {
                return Err(ValidationError::MissingField("reference".to_string()));
            },
        };
        Ok(Repository { name, key, reference })
    }

    /// The report of a push that made the repository resolve to `resolved`.
    pub fn push_report(&self, resolved: String) -> (report: PushReport)
        ensures
            report.reference@ == self.reference@,
            report.resolved@ == resolved@,
    {
        PushReport { reference: self.reference.clone(), resolved }
    }
}

impl PushReport {
    /// Whether the push moved the repository to another address.
    pub fn moved(&self) -> (yes: bool)
        ensures
            yes == (self.reference@ != self.resolved@),
    {
        self.reference != self.resolved
    }
}

/// The address under which the name of a key resolves.
pub fn name_address(key: &str) -> (address: String)
    ensures
        address@ == name_address_of(key@),
{
    let mut address = "/ipns/".to_string();
    address.append(key);
    address
}

/// The line of the priority list for a repository.
pub fn priority_line(repository: &str, priority: u64) -> (line: String)
    ensures
        line@ == priority_line_of(repository@, priority as nat),
{
    let mut line = repository.to_string();
    line.append(" = ");
    push_decimal(&mut line, priority);
    line.append("\n");
    assert(line@ =~= priority_line_of(repository@, priority as nat));
    line
}

} // verus!
