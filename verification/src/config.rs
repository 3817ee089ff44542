//! The declared configuration space of a package, and the option list that a
//! build is expanded over.

use vstd::prelude::*;

verus! {

/// Why a configuration was refused. Nothing has been built or changed when
/// one of these is returned.
#[derive(Debug, Clone, PartialEq, Eq)]
pub enum ValidationError {
    /// A required field is missing or empty; the text is the field's name.
    MissingField(String),
    /// An option has no value to choose from; the text is the option's name.
    EmptyDomain(String),
    /// The space has more points than the machine can count.
    TooManyVariants,
    /// A version is not `major.minor.patch`; the text is what was found.
    BadVersion(String),
}

/// One dimension of the configuration space.
#[derive(Debug, Clone, PartialEq, Eq)]
pub struct BuildOption {
    pub name: String,
    pub domain: Vec<String>,
}

impl DeepView for BuildOption {
    type V = (Seq<char>, Seq<Seq<char>>);

    open spec fn deep_view(&self) -> Self::V {
        (self.name@, self.domain.deep_view())
    }
}

/// A named enumeration as the configuration document declares it.
#[derive(Debug, Clone, PartialEq, Eq)]
pub struct EnumDecl {
    pub name: String,
    pub values: Vec<String>,
}

impl DeepView for EnumDecl {
    type V = (Seq<char>, Seq<Seq<char>>);

    open spec fn deep_view(&self) -> Self::V {
        (self.name@, self.values.deep_view())
    }
}

/// What a configuration document declares. A field that the document does not
/// have is `None`.
#[derive(Debug, Clone, PartialEq, Eq)]
pub struct ConfigModel {
    pub flags: Option<Vec<String>>,
    pub architectures: Option<Vec<String>>,
    pub enums: Option<Vec<EnumDecl>>,
}

/// The two values of a flag, in the order in which they are visited.
pub open spec fn flag_domain() -> Seq<Seq<char>> {
    seq!["false"@, "true"@]
}

/// The option list of a configuration: one two-valued option per flag, then
/// the architecture option if architectures are declared, then the
/// enumerations in the order of their declaration.
pub open spec fn declared_options(
    flags: Seq<Seq<char>>,
    architectures: Option<Seq<Seq<char>>>,
    enums: Option<Seq<(Seq<char>, Seq<Seq<char>>)>>,
) -> Seq<(Seq<char>, Seq<Seq<char>>)> {
    Seq::new(flags.len(), |i: int| (flags[i], flag_domain())) + (match architectures {
        Some(list) => seq![("arch"@, list)],
        None => Seq::empty(),
    }) + (match enums {
        Some(list) => list,
        None => Seq::empty(),
    })
}

/// The field that makes a configuration invalid, if there is one: `flags`
/// must be declared and hold a flag; `architectures` and `enums` may be left
/// out, but a declared one must not be empty. The first offending field in
/// this order is the one named.
pub open spec fn offending_field(config: ConfigModel) -> Option<Seq<char>> {
    if config.flags is None || config.flags->0.len() == 0 {
        Some("flags"@)
    } else if config.architectures is Some && config.architectures->0.len() == 0 {
        Some("architectures"@)
    } else if config.enums is Some && config.enums->0.len() == 0 {
        Some("enums"@)
    } else {
        None
    }
}

/// A copy of a list of strings.
fn copy_strings(list: &Vec<String>) -> (out: Vec<String>)
    ensures
        out.deep_view() == list.deep_view(),
{
    let mut out: Vec<String> = Vec::new();
    let mut i: usize = 0;
    while i < list.len()
        invariant
            i <= list.len(),
            out.len() == i,
            forall|j: int| 0 <= j < i ==> out[j]@ == list[j]@,
        decreases list.len() - i,
    {
        out.push(list[i].clone());
        i += 1;
    }
    assert(out.deep_view() =~= list.deep_view());
    out
}

/// The option of one flag: off first, then on.
fn flag_option(name: &String) -> (option: BuildOption)
    ensures
        option.deep_view() == (name@, flag_domain()),
{
    let mut domain: Vec<String> = Vec::new();
    domain.push("false".to_string());
    domain.push("true".to_string());
    assert(domain.deep_view() =~= flag_domain());
    BuildOption { name: name.clone(), domain }
}

/// Validates a configuration and lists its options in their fixed order.
pub fn build_options(config: &ConfigModel) -> (result: Result<Vec<BuildOption>, ValidationError>)
    ensures
        match result {
            Ok(options) => offending_field(*config) is None && options.deep_view()
                == declared_options(
                config.flags->0.deep_view(),
                config.architectures.deep_view(),
                config.enums.deep_view(),
            ),
            Err(ValidationError::MissingField(field)) => offending_field(*config) == Some(field@),
            Err(_) => false,
        },
{
    let flags = match &config.flags {
        Some(list) if list.len() > 0 => list,
        _ => {
            return Err(ValidationError::MissingField("flags".to_string()));
        },
    };
    let mut options: Vec<BuildOption> = Vec::new();
    let mut i: usize = 0;
    while i < flags.len()
        invariant
            i <= flags.len(),
            options.len() == i,
            forall|j: int| 0 <= j < i ==> (#[trigger] options[j]).deep_view() == (flags[j]@, flag_domain()),
        decreases flags.len() - i,
    {
        options.push(flag_option(&flags[i]));
        i += 1;
    }
    let ghost after_flags = options.deep_view();
    assert(after_flags =~= Seq::new(flags.deep_view().len(), |i: int| (flags.deep_view()[i], flag_domain())));
    match &config.architectures {
        Some(list) => {
            if list.len() == 0 {
                return Err(ValidationError::MissingField("architectures".to_string()));
            }
            options.push(BuildOption { name: "arch".to_string(), domain: copy_strings(list) });
        },
        None => {},
    }
    let ghost after_arch = options.deep_view();
    assert(after_arch =~= after_flags + (match config.architectures.deep_view() {
        Some(list) => seq![("arch"@, list)],
        None => Seq::empty(),
    }));
    match &config.enums {
        Some(list) => {
            if list.len() == 0 {
                return Err(ValidationError::MissingField("enums".to_string()));
            }
            let mut k: usize = 0;
            while k < list.len()
                invariant
                    k <= list.len(),
                    options.len() == after_arch.len() + k,
                    forall|j: int| 0 <= j < after_arch.len() ==> (#[trigger] options[j]).deep_view() == after_arch[j],
                    forall|j: int| 0 <= j < k ==> (#[trigger] options[after_arch.len() + j]).deep_view() == list[j].deep_view(),
                decreases list.len() - k,
            {
                options.push(BuildOption { name: list[k].name.clone(), domain: copy_strings(&list[k].values) });
                k += 1;
            }
            assert forall|j: int| 0 <= j < options.len() implies options.deep_view()[j] == (
            after_arch + list.deep_view())[j] by {
                if j >= after_arch.len() {
                    assert(options[after_arch.len() + (j - after_arch.len())].deep_view()
                        == list[j - after_arch.len()].deep_view());
                } else {
                    assert(options[j].deep_view() == after_arch[j]);
                }
            }
            assert(options.deep_view() =~= after_arch + list.deep_view());
        },
        None => {
            assert(options.deep_view() =~= after_arch + Seq::empty());
        },
    }
    Ok(options)
}

} // verus!
