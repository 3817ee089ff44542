use spu::config::{build_options, BuildOption, ConfigModel, EnumDecl, ValidationError};
use spu::odometer::{advance, digit_vectors, variant_count};
use spu::variant::{domain_sizes, generate_variants};

fn strings(items: &[&str]) -> Vec<String> {
    items.iter().map(|s| s.to_string()).collect()
}

fn option(name: &str, domain: &[&str]) -> BuildOption {
    BuildOption { name: name.to_string(), domain: strings(domain) }
}

#[test]
fn two_by_three_runs_like_an_odometer() {
    let vectors = digit_vectors(&vec![2, 3]).unwrap();
    assert_eq!(
        vectors,
        vec![vec![0, 0], vec![1, 0], vec![0, 1], vec![1, 1], vec![0, 2], vec![1, 2]]
    );
}

#[test]
fn no_position_gives_one_empty_vector() {
    let vectors = digit_vectors(&vec![]).unwrap();
    assert_eq!(vectors, vec![Vec::<usize>::new()]);
}

#[test]
fn single_valued_domains_give_one_point() {
    let vectors = digit_vectors(&vec![1, 1, 1]).unwrap();
    assert_eq!(vectors, vec![vec![0, 0, 0]]);
}

#[test]
fn count_is_the_product() {
    assert_eq!(variant_count(&vec![2, 3, 4]), Some(24));
    assert_eq!(variant_count(&vec![]), Some(1));
    assert_eq!(variant_count(&vec![7]), Some(7));
}

#[test]
fn count_that_does_not_fit_is_none() {
    let sizes = vec![usize::MAX, 2];
    assert_eq!(variant_count(&sizes), None);
    assert_eq!(variant_count(&vec![1, usize::MAX, 1]), Some(usize::MAX));
    assert!(digit_vectors(&sizes).is_none());
}

#[test]
fn advance_carries_into_the_next_position() {
    let sizes = vec![2, 3];
    let mut digits = vec![1, 0];
    assert!(advance(&mut digits, &sizes));
    assert_eq!(digits, vec![0, 1]);
    assert!(advance(&mut digits, &sizes));
    assert_eq!(digits, vec![1, 1]);
}

#[test]
fn advance_stops_behind_the_last_point() {
    let sizes = vec![2, 3];
    let mut digits = vec![1, 2];
    assert!(!advance(&mut digits, &sizes));
    assert_eq!(digits, vec![0, 0]);
}

#[test]
fn every_point_is_produced_once() {
    let sizes = vec![2, 3, 4];
    let vectors = digit_vectors(&sizes).unwrap();
    assert_eq!(vectors.len(), 24);
    for (k, digits) in vectors.iter().enumerate() {
        let rank = digits[0] + 2 * (digits[1] + 3 * digits[2]);
        assert_eq!(rank, k);
        assert_eq!(digits[0], k % 2);
        assert_eq!(digits[1], (k / 2) % 3);
        assert_eq!(digits[2], (k / 6) % 4);
    }
    for a in 0..vectors.len() {
        for b in (a + 1)..vectors.len() {
            assert_ne!(vectors[a], vectors[b]);
        }
    }
}

#[test]
fn variants_name_their_choices() {
    let options = vec![option("debug", &["false", "true"]), option("arch", &["x86", "arm", "riscv"])];
    let variants = generate_variants(&options).unwrap();
    assert_eq!(variants.len(), 6);
    for (k, v) in variants.iter().enumerate() {
        assert_eq!(v.index, k);
    }
    assert_eq!(variants[0].digits, vec![0, 0]);
    assert_eq!(
        variants[0].choices,
        vec![("debug".to_string(), "false".to_string()), ("arch".to_string(), "x86".to_string())]
    );
    assert_eq!(variants[1].digits, vec![1, 0]);
    assert_eq!(
        variants[1].choices,
        vec![("debug".to_string(), "true".to_string()), ("arch".to_string(), "x86".to_string())]
    );
    assert_eq!(variants[4].digits, vec![0, 2]);
    assert_eq!(
        variants[5].choices,
        vec![("debug".to_string(), "true".to_string()), ("arch".to_string(), "riscv".to_string())]
    );
}

#[test]
fn no_option_gives_one_empty_assignment() {
    let variants = generate_variants(&vec![]).unwrap();
    assert_eq!(variants.len(), 1);
    assert_eq!(variants[0].index, 0);
    assert!(variants[0].digits.is_empty());
    assert!(variants[0].choices.is_empty());
}

#[test]
fn empty_domain_is_refused_by_name() {
    let options = vec![option("debug", &["false", "true"]), option("libc", &[]), option("gui", &[])];
    assert_eq!(
        generate_variants(&options),
        Err(ValidationError::EmptyDomain("libc".to_string()))
    );
    assert_eq!(domain_sizes(&options), Err(ValidationError::EmptyDomain("libc".to_string())));
}

#[test]
fn domain_sizes_are_listed_in_order() {
    let options = vec![option("a", &["1", "2"]), option("b", &["x"]), option("c", &["p", "q", "r"])];
    assert_eq!(domain_sizes(&options), Ok(vec![2, 1, 3]));
}

#[test]
fn a_space_beyond_counting_is_refused() {
    let mut options = Vec::new();
    for i in 0..40 {
        options.push(option(&format!("o{}", i), &["a", "b", "c", "d"]));
    }
    assert_eq!(generate_variants(&options), Err(ValidationError::TooManyVariants));
}

#[test]
fn options_come_flags_first_then_architecture_then_enums() {
    let config = ConfigModel {
        flags: Some(strings(&["debug", "lto"])),
        architectures: Some(strings(&["x86_64", "aarch64"])),
        enums: Some(vec![EnumDecl { name: "libc".to_string(), values: strings(&["glibc", "musl"]) }]),
    };
    let options = build_options(&config).unwrap();
    assert_eq!(
        options,
        vec![
            option("debug", &["false", "true"]),
            option("lto", &["false", "true"]),
            option("arch", &["x86_64", "aarch64"]),
            option("libc", &["glibc", "musl"]),
        ]
    );
    assert_eq!(generate_variants(&options).unwrap().len(), 16);
}

#[test]
fn architecture_and_enums_may_be_left_out() {
    let config = ConfigModel { flags: Some(strings(&["debug"])), architectures: None, enums: None };
    assert_eq!(build_options(&config), Ok(vec![option("debug", &["false", "true"])]));
}

#[test]
fn missing_or_empty_flags_are_refused() {
    let none = ConfigModel { flags: None, architectures: None, enums: None };
    assert_eq!(build_options(&none), Err(ValidationError::MissingField("flags".to_string())));
    let empty = ConfigModel { flags: Some(vec![]), architectures: Some(vec![]), enums: None };
    assert_eq!(build_options(&empty), Err(ValidationError::MissingField("flags".to_string())));
}

#[test]
fn declared_but_empty_fields_are_refused() {
    let archs = ConfigModel { flags: Some(strings(&["f"])), architectures: Some(vec![]), enums: Some(vec![]) };
    assert_eq!(
        build_options(&archs),
        Err(ValidationError::MissingField("architectures".to_string()))
    );
    let enums = ConfigModel { flags: Some(strings(&["f"])), architectures: None, enums: Some(vec![]) };
    assert_eq!(build_options(&enums), Err(ValidationError::MissingField("enums".to_string())));
}

#[test]
fn an_enum_without_values_is_caught_before_enumeration() {
    let config = ConfigModel {
        flags: Some(strings(&["f"])),
        architectures: None,
        enums: Some(vec![EnumDecl { name: "color".to_string(), values: vec![] }]),
    };
    let options = build_options(&config).unwrap();
    assert_eq!(
        generate_variants(&options),
        Err(ValidationError::EmptyDomain("color".to_string()))
    );
}

#[test]
fn variants_differ_in_their_choices() {
    let options = vec![
        option("debug", &["false", "true"]),
        option("arch", &["x86", "arm", "riscv"]),
        option("libc", &["glibc", "musl"]),
    ];
    let variants = generate_variants(&options).unwrap();
    assert_eq!(variants.len(), 12);
    for a in 0..variants.len() {
        for b in (a + 1)..variants.len() {
            assert_ne!(variants[a].digits, variants[b].digits);
            assert_ne!(variants[a].choices, variants[b].choices);
        }
    }
}
