//! The build-variant matrix: every concrete build point of an option list, in
//! odometer order, the first option varying fastest.

use vstd::prelude::*;
use crate::config::{BuildOption, ValidationError};
use crate::odometer::{all_positive, digit_at, digit_vectors, enumerates, in_range, point_count};

verus! {

/// One point of the configuration space.
#[derive(Debug, Clone, PartialEq, Eq)]
pub struct VariantAssignment {
    /// The place of this point in the enumeration, counted from zero.
    pub index: usize,
    /// For each option, the position of the chosen value in its domain.
    pub digits: Vec<usize>,
    /// For each option, its name and the chosen value.
    pub choices: Vec<(String, String)>,
}

/// The domain sizes of an option list.
pub open spec fn sizes_of(options: Seq<BuildOption>) -> Seq<usize> {
    Seq::new(options.len(), |i: int| options[i].domain.len())
}

/// Option `i` is the first one without a value to choose from.
pub open spec fn is_first_empty(options: Seq<BuildOption>, i: int) -> bool {
    &&& 0 <= i < options.len()
    &&& options[i].domain.len() == 0
    &&& forall|j: int| 0 <= j < i ==> (#[trigger] options[j]).domain.len() > 0
}

/// The named choices that a digit vector stands for.
pub open spec fn choices_at(options: Seq<BuildOption>, digits: Seq<usize>) -> Seq<
    (Seq<char>, Seq<char>),
> {
    Seq::new(
        options.len(),
        |i: int| (options[i].name@, options[i].domain[digits[i] as int]@),
    )
}

/// `a` is point number `k` of the space of `options`.
pub open spec fn describes(a: VariantAssignment, options: Seq<BuildOption>, k: int) -> bool {
    &&& a.index == k
    &&& in_range(a.digits@, sizes_of(options))
    &&& forall|i: int|
        0 <= i < options.len() ==> (#[trigger] a.digits@[i]) as nat == digit_at(
            k as nat,
            sizes_of(options),
            i as nat,
        )
    &&& a.choices.deep_view() == choices_at(options, a.digits@)
}

/// The domain sizes, unless an option has an empty domain: then the error
/// names the first such option.
pub fn domain_sizes(options: &Vec<BuildOption>) -> (result: Result<Vec<usize>, ValidationError>)
    ensures
        match result {
            Ok(sizes) => sizes@ == sizes_of(options@) && all_positive(sizes@),
            Err(ValidationError::EmptyDomain(name)) => exists|i: int|
                is_first_empty(options@, i) && name@ == options[i].name@,
            Err(_) => false,
        },
{
    let mut sizes: Vec<usize> = Vec::new();
    let mut i: usize = 0;
    while i < options.len()
        invariant
            i <= options.len(),
            sizes.len() == i,
            forall|j: int| 0 <= j < i ==> #[trigger] sizes[j] == options[j].domain.len(),
            forall|j: int| 0 <= j < i ==> (#[trigger] options[j]).domain.len() > 0,
        decreases options.len() - i,
    {
        let size = options[i].domain.len();
        if size == 0 {
            assert(is_first_empty(options@, i as int));
            return Err(ValidationError::EmptyDomain(options[i].name.clone()));
        }
        sizes.push(size);
        i += 1;
    }
    assert(sizes@ =~= sizes_of(options@));
    Ok(sizes)
}

/// The assignment that a digit vector stands for.
fn assignment(options: &Vec<BuildOption>, digits: Vec<usize>, index: usize) -> (a:
    VariantAssignment)
    requires
        in_range(digits@, sizes_of(options@)),
    ensures
        a.index == index,
        a.digits@ == digits@,
        a.choices.deep_view() == choices_at(options@, digits@),
{
    let mut choices: Vec<(String, String)> = Vec::new();
    let mut i: usize = 0;
    while i < options.len()
        invariant
            i <= options.len(),
            choices.len() == i,
            in_range(digits@, sizes_of(options@)),
            forall|j: int|
                0 <= j < i ==> (#[trigger] choices[j]).deep_view() == (
                    options[j].name@,
                    options[j].domain[digits[j] as int]@,
                ),
        decreases options.len() - i,
    {
        assert(digits[i as int] < sizes_of(options@)[i as int]);
        let option = &options[i];
        let value = option.domain[digits[i]].clone();
        choices.push((option.name.clone(), value));
        i += 1;
    }
    assert(choices.deep_view() =~= choices_at(options@, digits@));
    VariantAssignment { index, digits, choices }
}

/// Where no domain holds a value twice, points that differ in a digit differ
/// in a named choice.
pub proof fn law_choices_differ(options: Seq<BuildOption>, a: Seq<usize>, b: Seq<usize>)
    requires
        in_range(a, sizes_of(options)),
        in_range(b, sizes_of(options)),
        a != b,
        forall|i: int|
            0 <= i < options.len() ==> (#[trigger] options[i]).domain.deep_view().no_duplicates(),
    ensures
        choices_at(options, a) != choices_at(options, b),
{
    assert(!(a =~= b));
    let i = choose|i: int| 0 <= i < a.len() && a[i] != b[i];
    let domain = options[i].domain.deep_view();
    assert(a[i] < sizes_of(options)[i] && b[i] < sizes_of(options)[i]);
    assert(domain[a[i] as int] != domain[b[i] as int]);
    assert(choices_at(options, a)[i].1 == domain[a[i] as int]);
    assert(choices_at(options, b)[i].1 == domain[b[i] as int]);
}

/// Whether `variants` is the full matrix of `options`: one assignment per
/// point of the cartesian product, numbered in order, no two alike.
pub open spec fn is_matrix(variants: Seq<VariantAssignment>, options: Seq<BuildOption>) -> bool {
    &&& variants.len() == point_count(sizes_of(options))
    &&& forall|k: int| 0 <= k < variants.len() ==> describes(#[trigger] variants[k], options, k)
    &&& forall|j: int, k: int|
        0 <= j < k < variants.len() ==> (#[trigger] variants[j]).digits@ != (
        #[trigger] variants[k]).digits@
}

/// Expands an option list into every concrete build point.
///
/// An option without a value is refused before anything is enumerated, and
/// the error names the first such option. A space too large to count is
/// refused too. Otherwise the result is the whole matrix.
pub fn generate_variants(options: &Vec<BuildOption>) -> (result: Result<
    Vec<VariantAssignment>,
    ValidationError,
>)
    ensures
        match result {
            Ok(variants) => all_positive(sizes_of(options@)) && is_matrix(variants@, options@),
            Err(ValidationError::EmptyDomain(name)) => exists|i: int|
                is_first_empty(options@, i) && name@ == options[i].name@,
            Err(ValidationError::TooManyVariants) => all_positive(sizes_of(options@))
                && point_count(sizes_of(options@)) > usize::MAX,
            Err(_) => false,
        },
{
    let sizes = match domain_sizes(options) {
        Ok(sizes) => sizes,
        Err(e) => {
            return Err(e);
        },
    };
    let vectors = match digit_vectors(&sizes) {
        Some(vectors) => vectors,
        None => {
            return Err(ValidationError::TooManyVariants);
        },
    };
    let mut variants: Vec<VariantAssignment> = Vec::new();
    let mut k: usize = 0;
    while k < vectors.len()
        invariant
            k <= vectors.len(),
            variants.len() == k,
            sizes@ == sizes_of(options@),
            enumerates(vectors@, sizes@),
            forall|j: int|
                0 <= j < k ==> describes(#[trigger] variants[j], options@, j) && variants[j].digits@
                    == vectors[j]@,
        decreases vectors.len() - k,
    {
        let digits = vectors[k].clone();
        assert(digits@ =~= vectors[k as int]@);
        let a = assignment(options, digits, k);
        assert(describes(a, options@, k as int)) by {
            assert forall|i: int| 0 <= i < options.len() implies (#[trigger] a.digits@[i]) as nat
                == digit_at(k as nat, sizes_of(options@), i as nat) by {
                assert(vectors@[k as int]@[i] as nat == digit_at(k as nat, sizes@, i as nat));
            }
        }
        variants.push(a);
        k += 1;
    }
    assert(is_matrix(variants@, options@)) by {
        assert forall|i: int, j: int| 0 <= i < j < variants.len() implies (
        #[trigger] variants[i]).digits@ != (#[trigger] variants[j]).digits@ by {
            assert(vectors@[i]@ != vectors@[j]@);
        }
    }
    Ok(variants)
}

} // verus!
