//! Routing of the host's command line: the words before the first `+name`
//! word go to every module, the words behind a `+name` word to that module.

use indexmap::IndexMap;
use vstd::prelude::*;
use vstd::string::StringExecFns;

verus! {

/// `IndexMap` of the indexmap crate: a map that keeps its entries in the
/// order in which their keys were first inserted.
#[verifier::external_type_specification]
#[verifier::external_body]
#[verifier::reject_recursive_types(K)]
#[verifier::reject_recursive_types(V)]
#[verifier::reject_recursive_types(S)]
pub struct ExIndexMap<K, V, S>(IndexMap<K, V, S>);

/// A module group: the name of a module and the words meant for it.
pub type Group = (Seq<char>, Seq<Seq<char>>);

/// The groups that an `IndexMap` of module groups holds, in its order.
pub uninterp spec fn group_entries(groups: IndexMap<String, Vec<String>>) -> Seq<Group>;

/// The content of a list of words.
pub open spec fn words(list: Seq<String>) -> Seq<Seq<char>> {
    Seq::new(list.len(), |i: int| list[i]@)
}

/// The content of a list of groups.
pub open spec fn groups_of_list(list: Seq<(String, Vec<String>)>) -> Seq<Group> {
    Seq::new(list.len(), |i: int| (list[i].0@, words(list[i].1@)))
}

/// `entries` after the group `name` got the words `arguments`: a group of
/// that name keeps its place and gets the new words, a new group goes last.
pub open spec fn with_group(entries: Seq<Group>, name: Seq<char>, arguments: Seq<Seq<char>>) -> Seq<
    Group,
>
    decreases entries.len(),
{
    if entries.len() == 0 {
        seq![(name, arguments)]
    } else if entries[0].0 == name {
        seq![(name, arguments)] + entries.skip(1)
    } else {
        seq![entries[0]] + with_group(entries.skip(1), name, arguments)
    }
}

/// Calls `IndexMap::new` of the indexmap crate: the new map holds nothing.
#[verifier::external_body]
fn new_groups() -> (groups: IndexMap<String, Vec<String>>)
    ensures
        group_entries(groups) == Seq::<Group>::empty(),
{
    IndexMap::new()
}

/// Calls `IndexMap::insert` of the indexmap crate. As its documentation
/// says, a key that the map already holds keeps its place in the order and
/// gets the new value, and a new key goes last.
#[verifier::external_body]
fn insert_group(groups: &mut IndexMap<String, Vec<String>>, name: String, arguments: Vec<String>)
    ensures
        group_entries(*final(groups)) == with_group(
            group_entries(*old(groups)),
            name@,
            words(arguments@),
        ),
{
    groups.insert(name, arguments);
}

/// Walks an `IndexMap` of the indexmap crate with `into_iter`, which hands
/// out its entries in the map's order, and collects them.
#[verifier::external_body]
pub(crate) fn group_list(groups: IndexMap<String, Vec<String>>) -> (list: Vec<
    (String, Vec<String>),
>)
    ensures
        groups_of_list(list@) == group_entries(groups),
{
    groups.into_iter().collect()
}

/// Whether `word` opens a module group: it starts with `+`.
pub open spec fn is_group_marker(word: Seq<char>) -> bool {
    word.len() > 0 && word[0] == '+'
}

/// The progress of routing: the global words, the groups that are complete,
/// and the group that the next plain word goes to.
pub struct Routing {
    /// The words for every module; `None` as long as there are none.
    pub global: Option<Seq<Seq<char>>>,
    /// The groups that are complete.
    pub closed: Seq<Group>,
    /// The group that was opened last, with the words read for it so far.
    pub open: Option<Group>,
}

/// The groups that are complete once the open group is closed.
pub open spec fn close_open(closed: Seq<Group>, open: Option<Group>) -> Seq<Group> {
    match open {
        Some(group) => with_group(closed, group.0, group.1),
        None => closed,
    }
}

/// The progress of routing after all of `arguments` have been read.
pub open spec fn routing_of(arguments: Seq<Seq<char>>) -> Routing
    decreases arguments.len(),
{
    if arguments.len() == 0 {
        Routing { global: None, closed: Seq::empty(), open: None }
    } else {
        let before = routing_of(arguments.drop_last());
        let word = arguments.last();
        if is_group_marker(word) {
            Routing {
                global: before.global,
                closed: close_open(before.closed, before.open),
                open: Some((word.skip(1), Seq::empty())),
            }
        } else {
            match before.open {
                Some(group) => Routing {
                    global: before.global,
                    closed: before.closed,
                    open: Some((group.0, group.1.push(word))),
                },
                None => Routing {
                    global: Some(
                        match before.global {
                            Some(global) => global.push(word),
                            None => seq![word],
                        },
                    ),
                    closed: before.closed,
                    open: None,
                },
            }
        }
    }
}

/// The global words of a command line: those before the first group, if
/// there are any.
pub open spec fn global_words(arguments: Seq<Seq<char>>) -> Option<Seq<Seq<char>>> {
    routing_of(arguments).global
}

/// The module groups of a command line, in the order in which their names
/// first occur. A name that occurs again starts its group anew.
pub open spec fn module_groups(arguments: Seq<Seq<char>>) -> Seq<Group> {
    close_open(routing_of(arguments).closed, routing_of(arguments).open)
}

/// The global words are the words before the first word that opens a
/// group: `first` is the place of that word, or the number of words if no
/// word opens a group.
pub proof fn lemma_global_words_come_first(arguments: Seq<Seq<char>>, first: int)
    requires
        0 <= first <= arguments.len(),
        forall|i: int| 0 <= i < first ==> !is_group_marker(#[trigger] arguments[i]),
        first < arguments.len() ==> is_group_marker(arguments[first]),
    ensures
        global_words(arguments) == if first == 0 {
            None
        } else {
            Some(arguments.take(first))
        },
        routing_of(arguments).open.is_some() <==> first < arguments.len(),
        first == arguments.len() ==> module_groups(arguments) == Seq::<Group>::empty(),
    decreases arguments.len(),
{
    if arguments.len() > 0 {
        let front = arguments.drop_last();
        if first == arguments.len() {
            lemma_global_words_come_first(front, first - 1);
            assert(front.take(first - 1) =~= front);
            assert(arguments.take(first) =~= arguments);
            assert(front.push(arguments.last()) =~= arguments);
        } else {
            lemma_global_words_come_first(front, first);
            if first == arguments.len() - 1 {
                assert(front.take(first) =~= arguments.take(first));
            } else {
                assert(front.take(first) =~= arguments.take(first));
                assert(front[first] == arguments[first]);
            }
        }
    } else {
        assert(arguments.take(0) =~= arguments);
    }
}

/// A command line, routed.
pub struct RoutedArguments {
    /// The words for every module; `None` if there are none.
    pub global_args: Option<Vec<String>>,
    /// The words for each named module.
    pub separated_args: IndexMap<String, Vec<String>>,
}

/// The content of an optional list of words.
pub open spec fn optional_words(list: Option<Vec<String>>) -> Option<Seq<Seq<char>>> {
    match list {
        Some(list) => Some(words(list@)),
        None => None,
    }
}

/// Routes the words of a command line, the program name left out.
pub fn route_arguments(arguments: &Vec<String>) -> (routed: RoutedArguments)
    ensures
        optional_words(routed.global_args) == global_words(words(arguments@)),
        group_entries(routed.separated_args) == module_groups(words(arguments@)),
{
    let mut global_args: Option<Vec<String>> = None;
    let mut separated_args = new_groups();
    let mut open: Option<(String, Vec<String>)> = None;
    let ghost all = words(arguments@);
    let mut i: usize = 0;
    while i < arguments.len()
        invariant
            0 <= i <= arguments.len(),
            all == words(arguments@),
            optional_words(global_args) == routing_of(all.take(i as int)).global,
            group_entries(separated_args) == routing_of(all.take(i as int)).closed,
            match open {
                Some(group) => routing_of(all.take(i as int)).open == Some(
                    (group.0@, words(group.1@)),
                ),
                None => routing_of(all.take(i as int)).open.is_none(),
            },
        decreases arguments.len() - i,
    {
        let word = arguments[i].as_str();
        proof {
            assert(all.take(i + 1).drop_last() =~= all.take(i as int));
            assert(all.take(i + 1).last() == word@);
        }
        let length = word.unicode_len();
        if length > 0 && word.get_char(0) == '+' {
            let name = String::from_str(word.substring_char(1, length));
            assert(name@ =~= word@.skip(1));
            match open {
                Some(group) => {
                    insert_group(&mut separated_args, group.0, group.1);
                },
                None => {},
            }
            let fresh: Vec<String> = Vec::new();
            assert(words(fresh@) =~= Seq::<Seq<char>>::empty());
            open = Some((name, fresh));
        } else {
            match open {
                Some(group) => {
                    let (name, mut list) = group;
                    list.push(arguments[i].clone());
                    assert(words(list@) =~= words(group.1@).push(word@));
                    open = Some((name, list));
                },
                None => {
                    let mut list = match global_args {
                        Some(list) => list,
                        None => Vec::new(),
                    };
                    let ghost before = words(list@);
                    list.push(arguments[i].clone());
                    assert(words(list@) =~= before.push(word@));
                    assert(before.len() == 0 ==> words(list@) =~= seq![word@]);
                    global_args = Some(list);
                },
            }
        }
        i += 1;
    }
    proof {
        assert(all.take(arguments.len() as int) =~= all);
    }
    match open {
        Some(group) => {
            insert_group(&mut separated_args, group.0, group.1);
        },
        None => {},
    }
    RoutedArguments { global_args, separated_args }
}

} // verus!
