//! The names under which a unit can be looked up, as given by its decorators.

use vstd::prelude::*;

verus! {

/// Which spellings of a prefix a unit name accepts.
#[derive(Debug, Clone, Copy, PartialEq, Eq, Structural)]
pub struct AcceptsPrefix {
    pub short: bool,
    pub long: bool,
}

impl AcceptsPrefix {
    /// Long prefixes only.
    pub open spec fn spec_only_long() -> Self {
        AcceptsPrefix { short: false, long: true }
    }

    /// Long prefixes only.
    #[verifier::when_used_as_spec(spec_only_long)]
    pub fn only_long() -> (r: Self)
        ensures
            r == Self::spec_only_long(),
    {
        AcceptsPrefix { short: false, long: true }
    }

    /// Short prefixes only.
    pub fn only_short() -> (r: Self)
        ensures
            r == (AcceptsPrefix { short: true, long: false }),
    {
        AcceptsPrefix { short: true, long: false }
    }

    /// Short and long prefixes.
    pub fn both() -> (r: Self)
        ensures
            r == (AcceptsPrefix { short: true, long: true }),
    {
        AcceptsPrefix { short: true, long: true }
    }

    /// No prefixes.
    pub fn none() -> (r: Self)
        ensures
            r == (AcceptsPrefix { short: false, long: false }),
    {
        AcceptsPrefix { short: false, long: false }
    }
}

impl DeepView for AcceptsPrefix {
    type V = AcceptsPrefix;

    open spec fn deep_view(&self) -> AcceptsPrefix {
        *self
    }
}

/// An annotation on a unit definition.
#[derive(Debug, Clone, PartialEq, Eq)]
pub enum Decorator {
    MetricPrefixes,
    BinaryPrefixes,
    Aliases(Vec<(String, Option<AcceptsPrefix>)>),
}

/// One alias with its prefix policy, long-only where none is given.
pub open spec fn alias_entry(alias: (String, Option<AcceptsPrefix>)) -> (Seq<char>, AcceptsPrefix) {
    (
        alias.0@,
        match alias.1 {
            Some(accepts) => accepts,
            None => AcceptsPrefix::only_long(),
        },
    )
}

/// The aliases of the last alias list among the decorators; empty if there is none.
pub open spec fn declared_aliases(decorators: Seq<Decorator>) -> Seq<(Seq<char>, AcceptsPrefix)>
    decreases decorators.len(),
{
    if decorators.len() == 0 {
        Seq::empty()
    } else {
        match decorators.last() {
            Decorator::Aliases(aliases) => aliases@.map_values(
                |a: (String, Option<AcceptsPrefix>)| alias_entry(a),
            ),
            _ => declared_aliases(decorators.drop_last()),
        }
    }
}

/// Whether `name` is one of the names in `entries`.
pub open spec fn names_contain(entries: Seq<(Seq<char>, AcceptsPrefix)>, name: Seq<char>) -> bool {
    exists|i: int| 0 <= i < entries.len() && (#[trigger] entries[i]).0 == name
}

/// The names to index a unit under: the name itself with long prefixes only,
/// then the declared aliases; the aliases alone if the name is among them.
pub open spec fn lookup_names(name: Seq<char>, decorators: Seq<Decorator>) -> Seq<
    (Seq<char>, AcceptsPrefix),
> {
    let aliases = declared_aliases(decorators);
    if names_contain(aliases, name) {
        aliases
    } else {
        seq![(name, AcceptsPrefix::only_long())] + aliases
    }
}

fn collect_aliases(decorators: &[Decorator]) -> (aliases: Vec<(String, AcceptsPrefix)>)
    ensures
        aliases.deep_view() == declared_aliases(decorators@),
{
    let mut aliases: Vec<(String, AcceptsPrefix)> = Vec::new();
    let mut i: usize = 0;
    assert(decorators@.take(0) =~= Seq::empty());
    while i < decorators.len()
        invariant
            i <= decorators.len(),
            aliases.deep_view() == declared_aliases(decorators@.take(i as int)),
        decreases decorators.len() - i,
    {
        let ghost seen = decorators@.take(i + 1);
        assert(seen.last() == decorators@[i as int]);
        assert(seen.drop_last() =~= decorators@.take(i as int));
        match &decorators[i] {
            Decorator::Aliases(list) => {
                let mut entries: Vec<(String, AcceptsPrefix)> = Vec::new();
                let mut j: usize = 0;
                while j < list.len()
                    invariant
                        j <= list.len(),
                        entries.deep_view() =~= list@.take(j as int).map_values(
                            |a: (String, Option<AcceptsPrefix>)| alias_entry(a),
                        ),
                    decreases list.len() - j,
                {
                    let accepts = match list[j].1 {
                        Some(accepts) => accepts,
                        None => AcceptsPrefix::only_long(),
                    };
                    let ghost before = entries.deep_view();
                    entries.push((list[j].0.clone(), accepts));
                    assert(entries.deep_view() =~= before.push(alias_entry(list@[j as int])));
                    assert(list@.take(j + 1) =~= list@.take(j as int).push(list@[j as int]));
                    j += 1;
                }
                assert(list@.take(list.len() as int) =~= list@);
                aliases = entries;
            },
            _ => {},
        }
        i += 1;
    }
    assert(decorators@.take(decorators.len() as int) =~= decorators@);
    aliases
}

/// The names under which a unit is looked up, each with its prefix policy.
pub fn name_and_aliases(name: &String, decorators: &[Decorator]) -> (names: Vec<
    (String, AcceptsPrefix),
>)
    ensures
        names.deep_view() == lookup_names(name@, decorators@),
{
    let aliases = collect_aliases(decorators);
    let mut found = false;
    let mut i: usize = 0;
    while i < aliases.len()
        invariant
            i <= aliases.len(),
            found == names_contain(aliases.deep_view().take(i as int), name@),
        decreases aliases.len() - i,
    {
        let ghost seen = aliases.deep_view().take(i + 1);
        assert(seen[i as int] == aliases.deep_view()[i as int]);
        assert(aliases.deep_view()[i as int].0 == aliases@[i as int].0@);
        if aliases[i].0 == *name {
            found = true;
            assert(names_contain(seen, name@));
        } else {
            assert(names_contain(seen, name@) == found) by {
                if names_contain(seen, name@) {
                    let k = choose|k: int| 0 <= k < seen.len() && (#[trigger] seen[k]).0 == name@;
                    assert(aliases.deep_view().take(i as int)[k] == seen[k]);
                }
                if found {
                    let k = choose|k: int|
                        0 <= k < i && (#[trigger] aliases.deep_view().take(i as int)[k]).0
                            == name@;
                    assert(seen[k] == aliases.deep_view().take(i as int)[k]);
                }
            }
        }
        i += 1;
    }
    assert(aliases.deep_view().take(aliases.len() as int) =~= aliases.deep_view());
    if found {
        aliases
    } else {
        let mut names: Vec<(String, AcceptsPrefix)> = Vec::new();
        names.push((name.clone(), AcceptsPrefix::only_long()));
        let mut j: usize = 0;
        while j < aliases.len()
            invariant
                j <= aliases.len(),
                names.deep_view() =~= seq![(name@, AcceptsPrefix::only_long())]
                    + aliases.deep_view().take(j as int),
            decreases aliases.len() - j,
        {
            let ghost before = names.deep_view();
            names.push((aliases[j].0.clone(), aliases[j].1));
            assert(names.deep_view() =~= before.push(aliases.deep_view()[j as int]));
            j += 1;
        }
        names
    }
}

/// The first alias, over all alias lists in order, that admits short prefixes.
pub open spec fn first_short_alias(decorators: Seq<Decorator>) -> Option<Seq<char>>
    decreases decorators.len(),
{
    if decorators.len() == 0 {
        None
    } else {
        match decorators.first() {
            Decorator::Aliases(aliases) => match first_short_in(aliases@) {
                Some(alias) => Some(alias),
                None => first_short_alias(decorators.drop_first()),
            },
            _ => first_short_alias(decorators.drop_first()),
        }
    }
}

/// The first alias of one list that admits short prefixes.
pub open spec fn first_short_in(aliases: Seq<(String, Option<AcceptsPrefix>)>) -> Option<Seq<char>>
    decreases aliases.len(),
{
    if aliases.len() == 0 {
        None
    } else if aliases.first().1 matches Some(accepts) && accepts.short {
        Some(aliases.first().0@)
    } else {
        first_short_in(aliases.drop_first())
    }
}

/// The symbol a unit is written with: its first alias that admits short
/// prefixes, or else the name it was declared under.
pub fn get_canonical_unit_name(unit_name: &str, decorators: &[Decorator]) -> (name: String)
    ensures
        name@ == match first_short_alias(decorators@) {
            Some(alias) => alias,
            None => unit_name@,
        },
{
    let mut i: usize = 0;
    assert(decorators@.skip(0) =~= decorators@);
    while i < decorators.len()
        invariant
            i <= decorators.len(),
            first_short_alias(decorators@) == first_short_alias(decorators@.skip(i as int)),
        decreases decorators.len() - i,
    {
        let ghost rest = decorators@.skip(i as int);
        assert(rest.first() == decorators@[i as int]);
        assert(rest.drop_first() =~= decorators@.skip(i + 1));
        match &decorators[i] {
            Decorator::Aliases(aliases) => {
                let mut j: usize = 0;
                assert(aliases@.skip(0) =~= aliases@);
                while j < aliases.len()
                    invariant
                        j <= aliases.len(),
                        i < decorators.len(),
                        decorators@[i as int] == Decorator::Aliases(*aliases),
                        rest == decorators@.skip(i as int),
                        first_short_alias(decorators@) == first_short_alias(rest),
                        first_short_in(aliases@) == first_short_in(aliases@.skip(j as int)),
                    decreases aliases.len() - j,
                {
                    let ghost tail = aliases@.skip(j as int);
                    assert(tail.first() == aliases@[j as int]);
                    assert(tail.drop_first() =~= aliases@.skip(j + 1));
                    let short = match aliases[j].1 {
                        Some(accepts) => accepts.short,
                        None => false,
                    };
                    if short {
                        return aliases[j].0.clone();
                    }
                    j += 1;
                }
            },
            _ => {},
        }
        i += 1;
    }
    String::from_str(unit_name)
}

} // verus!
