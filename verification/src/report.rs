//! What the command layer tells its user: the question before conflicting
//! packages are removed, and the exit code of a command.

use vstd::prelude::*;

verus! {

/// The kinds of failure of a command.
#[derive(Debug, Clone, Copy, PartialEq, Eq)]
pub enum Failure {
    /// Bad input on the command line, such as an archive with another suffix.
    Usage,
    /// A configuration that was refused.
    Validation,
    /// An install into paths that are owned already.
    Conflict,
    /// Anything that aborts the command: a lock or a store that cannot be
    /// had, a corrupt table, a failing tool.
    Fatal,
}

/// The exit code of a command that succeeded.
pub const EXIT_SUCCESS: u8 = 0;

/// The exit code of a failure: never that of success, and another for each
/// kind.
pub open spec fn exit_code_of(failure: Failure) -> u8 {
    match failure {
        Failure::Usage => 1,
        Failure::Validation => 2,
        Failure::Conflict => 3,
        Failure::Fatal => 4,
    }
}

/// The exit code of a command that failed.
pub fn exit_code(failure: Failure) -> (code: u8)
    ensures
        code == exit_code_of(failure),
        code != EXIT_SUCCESS,
{
    match failure {
        Failure::Usage => 1,
        Failure::Validation => 2,
        Failure::Conflict => 3,
        Failure::Fatal => 4,
    }
}

/// Two kinds of failure never share an exit code.
pub proof fn law_exit_codes_differ(a: Failure, b: Failure)
    requires
        a != b,
    ensures
        exit_code_of(a) != exit_code_of(b),
        exit_code_of(a) != EXIT_SUCCESS,
{
}

/// One line per package, indented by three spaces.
pub open spec fn package_lines(owners: Seq<Seq<char>>) -> Seq<char>
    decreases owners.len(),
{
    if owners.len() == 0 {
        Seq::empty()
    } else {
        package_lines(owners.drop_last()) + "   "@ + owners.last() + "\n"@
    }
}

/// The question that is put before conflicting packages are removed.
pub open spec fn removal_prompt_of(owners: Seq<Seq<char>>) -> Seq<char> {
    "The following packages need to be removed:\n"@ + package_lines(owners)
        + "Do you want to continue? [y/n] : "@
}

/// The question that is put before the packages that own what an install
/// needs are removed.
pub fn removal_prompt(owners: &Vec<String>) -> (prompt: String)
    ensures
        prompt@ == removal_prompt_of(owners.deep_view()),
{
    let ghost view = owners.deep_view();
    let ghost head = "The following packages need to be removed:\n"@;
    let mut prompt = "The following packages need to be removed:\n".to_string();
    let mut i: usize = 0;
    assert(view.take(0) =~= Seq::empty());
    assert(head + package_lines(view.take(0)) =~= head);
    while i < owners.len()
        invariant
            i <= owners.len(),
            view == owners.deep_view(),
            prompt@ == head + package_lines(view.take(i as int)),
        decreases owners.len() - i,
    {
        assert(view.take(i + 1).drop_last() =~= view.take(i as int));
        assert(view.take(i + 1).last() == owners[i as int]@);
        prompt.append("   ");
        prompt.append(owners[i].as_str());
        prompt.append("\n");
        assert(prompt@ =~= head + package_lines(view.take(i + 1)));
        i += 1;
    }
    assert(view.take(i as int) =~= view);
    prompt.append("Do you want to continue? [y/n] : ");
    prompt
}

} // verus!
