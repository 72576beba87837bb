use std::collections::BTreeSet;

use skiffa_core::status::StatusKind;
use skiffa_core::status::claim_status_codes;

#[test]
fn test_sort() {
    let mut set = BTreeSet::new();

    set.insert(StatusKind::Class(1));
    set.insert(StatusKind::Default);
    set.insert(StatusKind::Class(2));
    set.insert(StatusKind::Code(200));
    set.insert(StatusKind::Code(201));
    set.insert(StatusKind::Code(204));

    assert_eq!(
        [
            StatusKind::Default,
            StatusKind::Class(1),
            StatusKind::Class(2),
            StatusKind::Code(200),
            StatusKind::Code(201),
            StatusKind::Code(204),
        ]
        .to_vec(),
        set.into_iter().collect::<Vec<_>>(),
    )
}

#[test]
fn parse_status_kinds() {
    assert_eq!(StatusKind::parse("default"), Ok(StatusKind::Default));
    assert_eq!(StatusKind::parse("2XX"), Ok(StatusKind::Class(2)));
    assert_eq!(StatusKind::parse("5XX"), Ok(StatusKind::Class(5)));
    assert_eq!(StatusKind::parse("200"), Ok(StatusKind::Code(200)));
    assert_eq!(StatusKind::parse("599"), Ok(StatusKind::Code(599)));
    assert!(StatusKind::parse("").is_err());
    assert!(StatusKind::parse("6XX").is_err());
    assert!(StatusKind::parse("99").is_err());
    assert!(StatusKind::parse("600").is_err());
    assert!(StatusKind::parse("abc").is_err());
    assert!(StatusKind::parse("20x").is_err());
    // a very long digit string stays out of range rather than overflowing
    assert!(StatusKind::parse("99999999999999999999999999").is_err());
}

#[test]
fn print_status_kinds() {
    assert_eq!(StatusKind::Default.to_text(), "default");
    assert_eq!(StatusKind::Class(4).to_text(), "4XX");
    assert_eq!(StatusKind::Code(204).to_text(), "204");
}

/// The allocation of `{Code(201), Class(2), Default}` in specificity
/// order: `{201}`, `{200..299}` less `201`, and the rest of `{100..599}`;
/// pairwise disjoint and covering the whole range.
#[test]
fn allocation_disjoint_example() {
    let mut available = vec![true; 500];
    let first = claim_status_codes(&StatusKind::Code(201), &mut available);
    let second = claim_status_codes(&StatusKind::Class(2), &mut available);
    let third = claim_status_codes(&StatusKind::Default, &mut available);

    assert_eq!(first, vec![201]);
    assert_eq!(second.len(), 99);
    assert!(second.contains(&200));
    assert!(!second.contains(&201));
    assert!(second.contains(&299));
    assert_eq!(third.len(), 400);
    assert!(third.contains(&100));
    assert!(third.contains(&599));
    assert!(!third.contains(&250));

    let a: BTreeSet<usize> = first.iter().cloned().collect();
    let b: BTreeSet<usize> = second.iter().cloned().collect();
    let c: BTreeSet<usize> = third.iter().cloned().collect();
    assert!(a.is_disjoint(&b));
    assert!(a.is_disjoint(&c));
    assert!(b.is_disjoint(&c));
    let mut all: BTreeSet<usize> = BTreeSet::new();
    all.extend(&a);
    all.extend(&b);
    all.extend(&c);
    assert_eq!(all.len(), 500);
    assert_eq!(*all.iter().next().unwrap(), 100);
    assert_eq!(*all.iter().next_back().unwrap(), 599);
}
