//! What a package build writes down: the settings that carry a variant into
//! the build step, and the index that maps each variant to the address of
//! its published artifact.

use vstd::prelude::*;
use crate::text::{decimal, push_decimal};

verus! {

/// The line of the index for one variant.
pub open spec fn index_line_of(index: nat, address: Seq<char>) -> Seq<char> {
    decimal(index) + " = \""@ + address + "\"\n"@
}

/// The index of a package: one line per variant, in order.
pub open spec fn index_of(addresses: Seq<Seq<char>>) -> Seq<char>
    decreases addresses.len(),
{
    if addresses.len() == 0 {
        Seq::empty()
    } else {
        index_of(addresses.drop_last()) + index_line_of(
            (addresses.len() - 1) as nat,
            addresses.last(),
        )
    }
}

/// The build-time settings of a variant: for each choice, the option's name
/// behind a fixed prefix, an equals sign, the chosen value and a space.
pub open spec fn settings_of(choices: Seq<(Seq<char>, Seq<char>)>) -> Seq<char>
    decreases choices.len(),
{
    if choices.len() == 0 {
        Seq::empty()
    } else {
        settings_of(choices.drop_last()) + "SPU_CONFIG_"@ + choices.last().0 + "="@
            + choices.last().1 + " "@
    }
}

/// The index line that records where variant `index` was published.
pub fn index_line(index: usize, address: &str) -> (line: String)
    ensures
        line@ == index_line_of(index as nat, address@),
{
    let mut line = String::new();
    push_decimal(&mut line, index as u64);
    line.append(" = \"");
    line.append(address);
    line.append("\"\n");
    assert(line@ =~= index_line_of(index as nat, address@));
    line
}

/// The whole index for the addresses of variants 0, 1, 2 and so on.
pub fn index_document(addresses: &Vec<String>) -> (text: String)
    ensures
        text@ == index_of(addresses.deep_view()),
{
    let ghost view = addresses.deep_view();
    let mut text = String::new();
    let mut i: usize = 0;
    assert(view.take(0) =~= Seq::empty());
    while i < addresses.len()
        invariant
            i <= addresses.len(),
            view == addresses.deep_view(),
            text@ == index_of(view.take(i as int)),
        decreases addresses.len() - i,
    {
        assert(view.take(i + 1).drop_last() =~= view.take(i as int));
        assert(view.take(i + 1).last() == addresses[i as int]@);
        let line = index_line(i, addresses[i].as_str());
        text.append(line.as_str());
        i += 1;
    }
    assert(view.take(i as int) =~= view);
    text
}

/// The settings that carry the choices of a variant into the build step.
pub fn build_settings(choices: &Vec<(String, String)>) -> (text: String)
    ensures
        text@ == settings_of(choices.deep_view()),
{
    let ghost view = choices.deep_view();
    let mut text = String::new();
    let mut i: usize = 0;
    assert(view.take(0) =~= Seq::empty());
    while i < choices.len()
        invariant
            i <= choices.len(),
            view == choices.deep_view(),
            text@ == settings_of(view.take(i as int)),
        decreases choices.len() - i,
    {
        assert(view.take(i + 1).drop_last() =~= view.take(i as int));
        assert(view.take(i + 1).last() == (choices[i as int].0@, choices[i as int].1@));
        text.append("SPU_CONFIG_");
        text.append(choices[i].0.as_str());
        text.append("=");
        text.append(choices[i].1.as_str());
        text.append(" ");
        i += 1;
    }
    assert(view.take(i as int) =~= view);
    text
}

} // verus!
