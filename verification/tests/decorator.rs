use numbat::decorator::{get_canonical_unit_name, name_and_aliases, AcceptsPrefix, Decorator};

fn aliases(entries: &[(&str, Option<AcceptsPrefix>)]) -> Decorator {
    Decorator::Aliases(
        entries
            .iter()
            .map(|(name, accepts)| (name.to_string(), *accepts))
            .collect(),
    )
}

#[test]
fn name_comes_first_with_long_prefixes_only() {
    let decorators = vec![
        Decorator::MetricPrefixes,
        aliases(&[
            ("metres", None),
            ("m", Some(AcceptsPrefix::only_short())),
        ]),
    ];
    let names = name_and_aliases(&"meter".to_string(), &decorators);
    assert_eq!(
        names,
        vec![
            ("meter".to_string(), AcceptsPrefix::only_long()),
            ("metres".to_string(), AcceptsPrefix::only_long()),
            ("m".to_string(), AcceptsPrefix::only_short()),
        ]
    );
}

#[test]
fn name_among_the_aliases_is_not_repeated() {
    let decorators = vec![aliases(&[
        ("byte", Some(AcceptsPrefix::both())),
        ("B", Some(AcceptsPrefix::only_short())),
    ])];
    let names = name_and_aliases(&"byte".to_string(), &decorators);
    assert_eq!(
        names,
        vec![
            ("byte".to_string(), AcceptsPrefix::both()),
            ("B".to_string(), AcceptsPrefix::only_short()),
        ]
    );
}

#[test]
fn name_without_decorators_stands_alone() {
    let names = name_and_aliases(&"second".to_string(), &[]);
    assert_eq!(names, vec![("second".to_string(), AcceptsPrefix::only_long())]);
    let names = name_and_aliases(&"second".to_string(), &[Decorator::BinaryPrefixes]);
    assert_eq!(names, vec![("second".to_string(), AcceptsPrefix::only_long())]);
}

#[test]
fn last_alias_list_wins() {
    let decorators = vec![
        aliases(&[("a", None)]),
        Decorator::MetricPrefixes,
        aliases(&[("b", Some(AcceptsPrefix::none()))]),
    ];
    let names = name_and_aliases(&"unit".to_string(), &decorators);
    assert_eq!(
        names,
        vec![
            ("unit".to_string(), AcceptsPrefix::only_long()),
            ("b".to_string(), AcceptsPrefix::none()),
        ]
    );
}

#[test]
fn canonical_name_is_the_first_short_alias() {
    let decorators = vec![
        Decorator::MetricPrefixes,
        aliases(&[("metres", None), ("metre", Some(AcceptsPrefix::only_long()))]),
        aliases(&[
            ("m", Some(AcceptsPrefix::only_short())),
            ("M", Some(AcceptsPrefix::both())),
        ]),
    ];
    assert_eq!(get_canonical_unit_name("meter", &decorators), "m");
}

#[test]
fn canonical_name_falls_back_to_the_unit_name() {
    let decorators = vec![
        Decorator::BinaryPrefixes,
        aliases(&[("metres", None), ("metre", Some(AcceptsPrefix::only_long()))]),
    ];
    assert_eq!(get_canonical_unit_name("meter", &decorators), "meter");
    assert_eq!(get_canonical_unit_name("meter", &[]), "meter");
}
