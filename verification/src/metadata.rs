//! The metadata of a package: its name, its semantic version and its
//! description.

use vstd::prelude::*;
use crate::config::ValidationError;
use crate::text::{chars_of, decimal, push_decimal, string_of};

verus! {

/// A semantic version: `major.minor.patch`, and a pre-release tag behind a
/// hyphen if there is one.
#[derive(Debug, Clone, PartialEq, Eq)]
pub struct Version {
    pub major: u64,
    pub minor: u64,
    pub patch: u64,
    pub pre_release: Option<String>,
}

impl View for Version {
    type V = (nat, nat, nat, Option<Seq<char>>);

    open spec fn view(&self) -> Self::V {
        (
            self.major as nat,
            self.minor as nat,
            self.patch as nat,
            match self.pre_release {
                Some(tag) => Some(tag@),
                None => None,
            },
        )
    }
}

/// What the metadata document of a package declares.
#[derive(Debug, Clone, PartialEq, Eq)]
pub struct PackageMetadata {
    pub name: String,
    pub version: Version,
    pub description: String,
}

/// The value of a decimal digit; zero for any other character.
pub open spec fn digit_value(c: char) -> nat {
    if c == '1' {
        1
    } else if c == '2' {
        2
    } else if c == '3' {
        3
    } else if c == '4' {
        4
    } else if c == '5' {
        5
    } else if c == '6' {
        6
    } else if c == '7' {
        7
    } else if c == '8' {
        8
    } else if c == '9' {
        9
    } else {
        0
    }
}

/// `c` is a decimal digit.
pub open spec fn is_digit(c: char) -> bool {
    c == '0' || digit_value(c) > 0
}

/// The number that a run of digits stands for.
pub open spec fn digits_value(s: Seq<char>) -> nat
    decreases s.len(),
{
    if s.len() == 0 {
        0
    } else {
        digits_value(s.drop_last()) * 10 + digit_value(s.last())
    }
}

/// `s` is a component of a version: digits only, at least one, no leading
/// zero, and a value that fits 64 bits.
pub open spec fn is_number(s: Seq<char>) -> bool {
    &&& s.len() > 0
    &&& forall|i: int| 0 <= i < s.len() ==> is_digit(s[i])
    &&& (s.len() == 1 || s[0] != '0')
    &&& digits_value(s) <= u64::MAX
}

/// The first place at or behind `from` where `c` stands; the length of `s`
/// if there is none.
pub open spec fn first_of(s: Seq<char>, c: char, from: int) -> int
    decreases s.len() - from,
{
    if from < 0 || from >= s.len() {
        s.len() as int
    } else if s[from] == c {
        from
    } else {
        first_of(s, c, from + 1)
    }
}

/// The version that a text denotes, if it denotes one. The first two dots
/// part major, minor and patch; the first hyphen behind them parts the patch
/// from the pre-release tag, which must not be empty.
pub open spec fn version_of(text: Seq<char>) -> Option<(nat, nat, nat, Option<Seq<char>>)> {
    let len = text.len() as int;
    let dot1 = first_of(text, '.', 0);
    let dot2 = first_of(text, '.', dot1 + 1);
    let hyphen = first_of(text, '-', dot2 + 1);
    if dot1 < len && dot2 < len && hyphen != len - 1 && is_number(text.subrange(0, dot1))
        && is_number(text.subrange(dot1 + 1, dot2)) && is_number(
        text.subrange(dot2 + 1, hyphen),
    ) {
        Some(
            (
                digits_value(text.subrange(0, dot1)),
                digits_value(text.subrange(dot1 + 1, dot2)),
                digits_value(text.subrange(dot2 + 1, hyphen)),
                if hyphen < len {
                    Some(text.subrange(hyphen + 1, len))
                } else {
                    None
                },
            ),
        )
    } else {
        None
    }
}

/// A version as text.
pub open spec fn version_text_of(version: (nat, nat, nat, Option<Seq<char>>)) -> Seq<char> {
    decimal(version.0) + "."@ + decimal(version.1) + "."@ + decimal(version.2) + (
    match version.3 {
        Some(tag) => "-"@ + tag,
        None => Seq::empty(),
    })
}

/// The first place at or behind `from` where `c` stands.
fn find(chars: &Vec<char>, c: char, from: usize) -> (at: usize)
    ensures
        at == first_of(chars@, c, from as int),
        from <= chars.len() ==> from <= at <= chars.len(),
{
    if from >= chars.len() {
        return chars.len();
    }
    let mut i: usize = from;
    while i < chars.len() && chars[i] != c
        invariant
            from <= i <= chars.len(),
            first_of(chars@, c, from as int) == first_of(chars@, c, i as int),
        decreases chars.len() - i,
    {
        i += 1;
    }
    i
}

/// The value of a digit; `None` for any other character.
fn digit_of(c: char) -> (d: Option<u64>)
    ensures
        match d {
            Some(v) => is_digit(c) && v == digit_value(c),
            None => !is_digit(c),
        },
{
    if c == '0' {
        Some(0)
    } else if c == '1' {
        Some(1)
    } else if c == '2' {
        Some(2)
    } else if c == '3' {
        Some(3)
    } else if c == '4' {
        Some(4)
    } else if c == '5' {
        Some(5)
    } else if c == '6' {
        Some(6)
    } else if c == '7' {
        Some(7)
    } else if c == '8' {
        Some(8)
    } else if c == '9' {
        Some(9)
    } else {
        None
    }
}

/// A run of digits stands for at least what any of its beginnings stands for.
proof fn lemma_digits_grow(s: Seq<char>, k: int)
    requires
        0 <= k <= s.len(),
    ensures
        digits_value(s.take(k)) <= digits_value(s),
    decreases s.len() - k,
{
    if k < s.len() {
        lemma_digits_grow(s, k + 1);
        assert(s.take(k + 1).drop_last() =~= s.take(k));
    } else {
        assert(s.take(k) =~= s);
    }
}

/// The number that the characters from `from` up to `to` stand for, if they
/// are a component of a version.
fn number(chars: &Vec<char>, from: usize, to: usize) -> (value: Option<u64>)
    requires
        from <= to <= chars.len(),
    ensures
        match value {
            Some(n) => is_number(chars@.subrange(from as int, to as int)) && n == digits_value(
                chars@.subrange(from as int, to as int),
            ),
            None => !is_number(chars@.subrange(from as int, to as int)),
        },
{
    let ghost run = chars@.subrange(from as int, to as int);
    if from == to {
        return None;
    }
    if to - from > 1 && chars[from] == '0' {
        assert(run[0] == '0');
        return None;
    }
    let mut acc: u64 = 0;
    let mut i: usize = from;
    assert(run.take(0) =~= Seq::empty());
    while i < to
        invariant
            from <= i <= to,
            to <= chars.len(),
            run == chars@.subrange(from as int, to as int),
            forall|j: int| 0 <= j < i - from ==> is_digit(run[j]),
            acc == digits_value(run.take(i - from)),
        decreases to - i,
    {
        assert(run.take(i - from + 1).drop_last() =~= run.take(i - from));
        assert(run.take(i - from + 1).last() == chars[i as int]);
        proof {
            lemma_digits_grow(run, i - from + 1);
        }
        let d = match digit_of(chars[i]) {
            Some(d) => d,
            None => {
                assert(!is_digit(run[i - from]));
                return None;
            },
        };
        let shifted = match acc.checked_mul(10) {
            Some(v) => v,
            None => {
                return None;
            },
        };
        acc = match shifted.checked_add(d) {
            Some(v) => v,
            None => {
                return None;
            },
        };
        i += 1;
    }
    assert(run.take(to - from) =~= run);
    Some(acc)
}

/// Reads a version.
pub fn parse_version(text: &str) -> (version: Option<Version>)
    ensures
        match version {
            Some(v) => version_of(text@) == Some(v@),
            None => version_of(text@) is None,
        },
{
    let chars = chars_of(text);
    let len = chars.len();
    let dot1 = find(&chars, '.', 0);
    if dot1 >= len {
        return None;
    }
    let dot2 = find(&chars, '.', dot1 + 1);
    if dot2 >= len {
        return None;
    }
    let hyphen = find(&chars, '-', dot2 + 1);
    if hyphen < len && len - hyphen == 1 {
        return None;
    }
    let major = match number(&chars, 0, dot1) {
        Some(n) => n,
        None => {
            return None;
        },
    };
    let minor = match number(&chars, dot1 + 1, dot2) {
        Some(n) => n,
        None => {
            return None;
        },
    };
    let patch = match number(&chars, dot2 + 1, hyphen) {
        Some(n) => n,
        None => {
            return None;
        },
    };
    let pre_release = if hyphen < len {
        Some(string_of(&chars, hyphen + 1, len))
    } else {
        None
    };
    Some(Version { major, minor, patch, pre_release })
}

/// Writes a version.
pub fn version_text(version: &Version) -> (text: String)
    ensures
        text@ == version_text_of(version@),
{
    let mut text = String::new();
    push_decimal(&mut text, version.major);
    text.append(".");
    push_decimal(&mut text, version.minor);
    text.append(".");
    push_decimal(&mut text, version.patch);
    match &version.pre_release {
        Some(tag) => {
            text.append("-");
            text.append(tag.as_str());
            assert(text@ =~= version_text_of(version@));
        },
        None => {
            assert(text@ =~= version_text_of(version@));
        },
    }
    text
}

/// A number in decimal is a run of digits without a leading zero, and
/// stands for that number.
proof fn lemma_decimal_is_number(n: nat)
    ensures
        decimal(n).len() > 0,
        forall|i: int| 0 <= i < decimal(n).len() ==> is_digit(decimal(n)[i]),
        decimal(n).len() == 1 || decimal(n)[0] != '0',
        n >= 1 ==> decimal(n)[0] != '0',
        digits_value(decimal(n)) == n,
    decreases n,
{
    if n < 10 {
        assert(decimal(n).drop_last() =~= Seq::empty());
        assert(digits_value(decimal(n).drop_last()) == 0);
    } else {
        lemma_decimal_is_number(n / 10);
        let head = decimal(n / 10);
        assert(decimal(n).drop_last() =~= head);
        assert(decimal(n)[0] == head[0]);
        assert forall|i: int| 0 <= i < decimal(n).len() implies is_digit(decimal(n)[i]) by {
            if i < head.len() {
                assert(decimal(n)[i] == head[i]);
            }
        }
    }
}

/// Where a character is found first.
proof fn lemma_first_of(s: Seq<char>, c: char, from: int, at: int)
    requires
        0 <= from <= at <= s.len(),
        forall|j: int| from <= j < at ==> s[j] != c,
        at < s.len() ==> s[at] == c,
    ensures
        first_of(s, c, from) == at,
    decreases at - from,
{
    if from < at {
        lemma_first_of(s, c, from + 1, at);
    }
}

/// A version that was written is read back as it was, provided its
/// components fit 64 bits and its pre-release tag, if it has one, is not
/// empty.
pub proof fn law_version_round_trip(version: (nat, nat, nat, Option<Seq<char>>))
    requires
        version.0 <= u64::MAX,
        version.1 <= u64::MAX,
        version.2 <= u64::MAX,
        version.3 matches Some(tag) ==> tag.len() > 0,
    ensures
        version_of(version_text_of(version)) == Some(version),
{
    let major = decimal(version.0);
    let minor = decimal(version.1);
    let patch = decimal(version.2);
    let text = version_text_of(version);
    let len = text.len() as int;
    reveal_strlit(".");
    reveal_strlit("-");
    lemma_decimal_is_number(version.0);
    lemma_decimal_is_number(version.1);
    lemma_decimal_is_number(version.2);
    let dot1 = major.len() as int;
    let dot2 = dot1 + 1 + minor.len();
    let end = dot2 + 1 + patch.len();
    assert(text.subrange(0, dot1) =~= major);
    assert(text.subrange(dot1 + 1, dot2) =~= minor);
    assert(text.subrange(dot2 + 1, end) =~= patch);
    assert(text[dot1] == '.');
    assert(text[dot2] == '.');
    assert forall|j: int| 0 <= j < dot1 implies text[j] != '.' by {
        assert(text[j] == major[j]);
        assert(is_digit(major[j]));
    }
    assert forall|j: int| dot1 + 1 <= j < dot2 implies text[j] != '.' by {
        assert(text[j] == minor[j - dot1 - 1]);
        assert(is_digit(minor[j - dot1 - 1]));
    }
    assert forall|j: int| dot2 + 1 <= j < end implies text[j] != '-' by {
        assert(text[j] == patch[j - dot2 - 1]);
        assert(is_digit(patch[j - dot2 - 1]));
    }
    lemma_first_of(text, '.', 0, dot1);
    lemma_first_of(text, '.', dot1 + 1, dot2);
    match version.3 {
        Some(tag) => {
            assert(text[end] == '-');
            assert(text.subrange(end + 1, len) =~= tag);
        },
        None => {
            assert(end == len);
        },
    }
    lemma_first_of(text, '-', dot2 + 1, end);
}

/// A field of a document is there and holds something.
pub open spec fn is_given(field: Option<String>) -> bool {
    field matches Some(text) && text@.len() > 0
}

impl PackageMetadata {
    /// The metadata that a document declares, from the fields as they were
    /// found. The name and the version are required; the first of them that
    /// is missing or empty is named. The version must be a version.
    pub fn from_document(
        name: Option<String>,
        version: Option<String>,
        description: Option<String>,
    ) -> (result: Result<PackageMetadata, ValidationError>)
        ensures
            match result {
                Ok(metadata) => {
                    &&& is_given(name)
                    &&& is_given(version)
                    &&& version_of(version->0@) == Some(metadata.version@)
                    &&& metadata.name@ == name->0@
                    &&& metadata.description@ == (match description {
                        Some(text) => text@,
                        None => name->0@,
                    })
                },
                Err(ValidationError::MissingField(field)) => if is_given(name) {
                    !is_given(version) && field@ == "version"@
                } else {
                    field@ == "name"@
                },
                Err(ValidationError::BadVersion(text)) => is_given(name) && is_given(version)
                    && version_of(version->0@) is None && text@ == version->0@,
                Err(_) => false,
            },
    {
        let name = match name {
            Some(text) if !text.as_str().is_empty() => text,
            _ => {
                return Err(ValidationError::MissingField("name".to_string()));
            },
        };
        let version = match version {
            Some(text) if !text.as_str().is_empty() => text,
            _ => {
                return Err(ValidationError::MissingField("version".to_string()));
            },
        };
        match parse_version(version.as_str()) {
            Some(parsed) => Ok(PackageMetadata::new(name, parsed, description)),
            None => Err(ValidationError::BadVersion(version)),
        }
    }

    /// The metadata of a package. A package without a description is
    /// described by its name.
    pub fn new(name: String, version: Version, description: Option<String>) -> (metadata:
        PackageMetadata)
        ensures
            metadata.name@ == name@,
            metadata.version == version,
            metadata.description@ == (match description {
                Some(text) => text@,
                None => name@,
            }),
    {
        let description = match description {
            Some(text) => text,
            None => name.clone(),
        };
        PackageMetadata { name, version, description }
    }
}

} // verus!
