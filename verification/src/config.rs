//! What the command line puts over the configuration files, and what is said of
//! configuration keys that are not known.
//!
//! An unknown key is no error: to be strict about it would be a nuisance to a user who goes
//! back and forth between versions with different keys. Each one gets a warning.

use crate::fs::names_of;
use crate::text::chars;
use crate::text::lemma_precedes_transitive;
use crate::text::precedes;
use crate::text::rank;
use crate::text::Rank;
use vstd::prelude::*;
use vstd::seq_lib::to_multiset_insert;
use vstd::string::StringExecFns;

verus! {

/// The text `arg` sets the key `name` to `value`: it is the name, the first `=` in it, and
/// the value. The value may hold further `=`.
pub open spec fn sets(arg: Seq<char>, name: Seq<char>, value: Seq<char>) -> bool {
    arg == name + seq!['='] + value && !name.contains('=')
}

/// The settings of `settings`, each as the name of its key and its value.
pub open spec fn pairs_of(settings: Seq<(String, String)>) -> Seq<(Seq<char>, Seq<char>)> {
    settings.map_values(|setting: (String, String)| (setting.0@, setting.1@))
}

/// The settings that the flags of the command line stand for, after those that it spells
/// out. The flag to force sets `force`. A path that is given for the input or for the output
/// is put in once the configuration has been read, so what is set for it here is a blank
/// that only keeps the key from being missed.
pub open spec fn flag_settings(force: bool, input: bool, output: bool) -> Seq<
    (Seq<char>, Seq<char>),
> {
    (if force {
        seq![("force"@, "true"@)]
    } else {
        Seq::empty()
    }) + (if input {
        seq![("input"@, " "@)]
    } else {
        Seq::empty()
    }) + (if output {
        seq![("output"@, " "@)]
    } else {
        Seq::empty()
    })
}

/// Takes apart a setting of the form `NAME=VALUE`, at the first `=`. Returns `None` if there
/// is no `=` in it.
pub fn split_setting(arg: &str) -> (out: Option<(String, String)>)
    ensures
        match out {
            Some((name, value)) => sets(arg@, name@, value@),
            None => !arg@.contains('='),
        },
{
    let all = chars(arg);
    let mut name = String::new();
    let mut at: usize = 0;
    while at < all.len() && all[at] != '='
        invariant
            at <= all.len(),
            name@ == all@.take(at as int),
            !name@.contains('='),
        decreases all.len() - at,
    {
        let ghost before = name@;
        name.push(all[at]);
        at = at + 1;
        proof {
            assert(name@ =~= all@.take(at as int));
            assert forall|i: int| 0 <= i < name@.len() implies name@[i] != '=' by {
                if i < before.len() {
                    assert(before.contains(before[i]));
                }
            }
        }
    }
    if at == all.len() {
        proof {
            assert(all@.take(at as int) =~= all@);
        }
        return None;
    }
    let mut value = String::new();
    let mut next: usize = at + 1;
    assert(value@ =~= all@.subrange(at + 1, next as int));
    while next < all.len()
        invariant
            at < next <= all.len(),
            value@ == all@.subrange(at + 1, next as int),
        decreases all.len() - next,
    {
        value.push(all[next]);
        next = next + 1;
        assert(value@ =~= all@.subrange(at + 1, next as int));
    }
    proof {
        assert(arg@ =~= name@ + seq!['='] + value@);
    }
    Some((name, value))
}

/// The settings that the command line puts over what the configuration files say, in the
/// order in which they take effect: those that it spells out as `NAME=VALUE`, which are
/// `config`, and then those that its flags stand for. Where one of `config` holds no `=`,
/// the first such is returned as the error, by its place in `config`.
pub fn overrides(config: &Vec<String>, force: bool, input: bool, output: bool) -> (out: Result<
    Vec<(String, String)>,
    usize,
>)
    ensures
        match out {
            Ok(settings) => {
                &&& settings@.len() >= config@.len()
                &&& forall|i: int|
                    0 <= i < config@.len() ==> sets(
                        #[trigger] config@[i]@,
                        settings@[i].0@,
                        settings@[i].1@,
                    )
                &&& pairs_of(settings@).skip(config@.len() as int) == flag_settings(
                    force,
                    input,
                    output,
                )
            },
            Err(at) => {
                &&& at < config@.len()
                &&& !config@[at as int]@.contains('=')
                &&& forall|i: int| 0 <= i < at ==> (#[trigger] config@[i])@.contains('=')
            },
        },
{
    let mut settings: Vec<(String, String)> = Vec::new();
    let mut i: usize = 0;
    while i < config.len()
        invariant
            i <= config.len(),
            settings@.len() == i,
            forall|j: int|
                0 <= j < i ==> sets(#[trigger] config@[j]@, settings@[j].0@, settings@[j].1@),
        decreases config.len() - i,
    {
        match split_setting(config[i].as_str()) {
            Some(setting) => {
                settings.push(setting);
            },
            None => {
                proof {
                    assert forall|j: int| 0 <= j < i implies (#[trigger] config@[j])@.contains(
                        '=',
                    ) by {
                        let name = settings@[j].0@;
                        let value = settings@[j].1@;
                        assert(sets(config@[j]@, name, value));
                        assert((name + seq!['='] + value)[name.len() as int] == '=');
                    }
                }
                return Err(i);
            },
        }
        i = i + 1;
    }
    let ghost spelled = settings@;
    if force {
        settings.push((String::from_str("force"), String::from_str("true")));
    }
    if input {
        settings.push((String::from_str("input"), String::from_str(" ")));
    }
    if output {
        settings.push((String::from_str("output"), String::from_str(" ")));
    }
    proof {
        assert(pairs_of(settings@).skip(config@.len() as int) =~= flag_settings(
            force,
            input,
            output,
        ));
        assert forall|j: int| 0 <= j < config@.len() implies sets(
            #[trigger] config@[j]@,
            settings@[j].0@,
            settings@[j].1@,
        ) by {
            assert(settings@[j] == spelled[j]);
        }
    }
    Ok(settings)
}

/// The text `a` does not come after the text `b`.
pub open spec fn not_after(a: Seq<char>, b: Seq<char>) -> bool {
    a == b || precedes(a, b)
}

/// The texts `names` stand in the order of texts.
pub open spec fn in_order(names: Seq<Seq<char>>) -> bool {
    forall|i: int, j: int| 0 <= i < j < names.len() ==> not_after(#[trigger] names[i], #[trigger] names[j])
}

/// The warning for the unknown key `name` of the part `prefix` of the configuration. The
/// part at the top has the empty prefix.
pub open spec fn warning_text(prefix: Seq<char>, name: Seq<char>) -> Seq<char> {
    if prefix.len() == 0 {
        "Warning: unknown config key "@ + name
    } else {
        "Warning: unknown config key "@ + prefix + "."@ + name
    }
}

/// The texts `names` in the order of texts.
pub fn sorted(names: Vec<String>) -> (out: Vec<String>)
    ensures
        in_order(names_of(out@)),
        names_of(out@).to_multiset() == names_of(names@).to_multiset(),
{
    let mut names = names;
    let ghost all = names_of(names@);
    let mut out: Vec<String> = Vec::new();
    proof {
        assert(names_of(out@) =~= Seq::<Seq<char>>::empty());
        assert(all.skip(all.len() as int) =~= Seq::<Seq<char>>::empty());
        assert(names_of(names@) + all.skip(all.len() as int) =~= all);
    }
    while names.len() > 0
        invariant
            names@.len() <= all.len(),
            names_of(names@) == all.take(names@.len() as int),
            in_order(names_of(out@)),
            names_of(out@).to_multiset() == all.skip(names@.len() as int).to_multiset(),
        decreases names.len(),
    {
        let ghost left = names@.len() - 1;
        let ghost sorted_before = names_of(out@);
        let name = names.pop().unwrap();
        proof {
            assert(names_of(names@) =~= all.take(left));
            assert(name@ == all[left]) by {
                assert(all.take(left + 1)[left] == all[left]);
            }
        }
        let mut at: usize = 0;
        while at < out.len() && !matches!(rank(out[at].as_str(), name.as_str()), Rank::After)
            invariant
                at <= out@.len(),
                forall|k: int| 0 <= k < at ==> not_after(#[trigger] names_of(out@)[k], name@),
            decreases out.len() - at,
        {
            at = at + 1;
        }
        proof {
            if at < out@.len() {
                assert(precedes(name@, names_of(out@)[at as int]));
            }
            assert forall|k: int| at <= k < out@.len() implies not_after(
                name@,
                #[trigger] names_of(out@)[k],
            ) by {
                if at < k {
                    assert(not_after(names_of(out@)[at as int], names_of(out@)[k]));
                    if names_of(out@)[at as int] != names_of(out@)[k] {
                        lemma_precedes_transitive(
                            name@,
                            names_of(out@)[at as int],
                            names_of(out@)[k],
                        );
                    }
                }
            }
        }
        out.insert(at, name);
        proof {
            let now = names_of(out@);
            assert(now =~= sorted_before.insert(at as int, name@));
            assert forall|i: int, j: int| 0 <= i < j < now.len() implies not_after(
                #[trigger] now[i],
                #[trigger] now[j],
            ) by {
                let oi = if i < at { i } else { i - 1 };
                let oj = if j < at { j } else { j - 1 };
                if i != at && j != at {
                    assert(not_after(sorted_before[oi], sorted_before[oj]));
                } else if i == at {
                    assert(now[j] == sorted_before[oj]);
                } else {
                    assert(now[i] == sorted_before[oi]);
                }
            }
            to_multiset_insert(sorted_before, at as int, name@);
            let rest = all.skip(left + 1);
            assert(all.skip(left) =~= seq![name@] + rest);
            lemma_front(name@, rest);
        }
    }
    proof {
        assert(all.skip(0) =~= all);
    }
    out
}

/// A text put before a list adds itself to what the list holds.
proof fn lemma_front(name: Seq<char>, rest: Seq<Seq<char>>)
    ensures
        (seq![name] + rest).to_multiset() == rest.to_multiset().insert(name),
{
    to_multiset_insert(rest, 0, name);
    assert(rest.insert(0, name) =~= seq![name] + rest);
}

/// The warnings for the unknown keys `unknown` of the part `prefix` of the configuration,
/// one for each key, in the order of the keys.
pub fn unknown_field_warning(prefix: &str, unknown: Vec<String>) -> (out: Vec<String>)
    ensures
        exists|entries: Seq<Seq<char>>|
            {
                &&& #[trigger] in_order(entries)
                &&& entries.to_multiset() == names_of(unknown@).to_multiset()
                &&& names_of(out@) == entries.map_values(
                    |name: Seq<char>| warning_text(prefix@, name),
                )
            },
{
    let entries = sorted(unknown);
    let top = prefix.unicode_len() == 0;
    let mut out: Vec<String> = Vec::new();
    let mut i: usize = 0;
    while i < entries.len()
        invariant
            i <= entries.len(),
            top == (prefix@.len() == 0),
            names_of(out@) == names_of(entries@).take(i as int).map_values(
                |name: Seq<char>| warning_text(prefix@, name),
            ),
        decreases entries.len() - i,
    {
        let mut text = String::from_str("Warning: unknown config key ");
        if !top {
            text.append(prefix);
            text.append(".");
        }
        text.append(entries[i].as_str());
        let ghost before = out@;
        out.push(text);
        proof {
            assert(names_of(out@) =~= names_of(before).push(
                warning_text(prefix@, entries@[i as int]@),
            ));
            assert(names_of(entries@).take(i + 1) =~= names_of(entries@).take(i as int).push(
                entries@[i as int]@,
            ));
            assert(names_of(out@) =~= names_of(entries@).take(i + 1).map_values(
                |name: Seq<char>| warning_text(prefix@, name),
            ));
        }
        i = i + 1;
    }
    proof {
        assert(names_of(entries@).take(entries@.len() as int) =~= names_of(entries@));
    }
    out
}

} // verus!
