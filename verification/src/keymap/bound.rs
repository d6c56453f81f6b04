//! The bindings in force: the defaults, with the reader's `keys.toml` over
//! the top, and what a keystroke comes to under them.
//!
//! Building them never fails. A file somebody wrote by hand is a file this
//! app does not own, and the answer to a line it cannot read is to say so and
//! carry on with the rest.

use vstd::prelude::*;
use crate::text::{chars_of, comes_before, join, join_with, names_in_order, push_str, same, split_at_char, split_on, string_of, text_before, views};
use crate::keymap::{
    all_actions, binding_described, binding_of, describe_binding, first_named, name_of, parse_binding,
    row_of_action, texts, Action, every, default_keys, names, has_text,
};

verus! {

/* ------------------------------------------------------------ the model */

/// The first place in a list of pairs where `key` stands on the left.
pub open spec fn is_first<K, V>(s: Seq<(K, V)>, key: K, k: int) -> bool {
    &&& 0 <= k < s.len()
    &&& s[k].0 == key
    &&& forall|j: int| 0 <= j < k ==> s[j].0 != key
}

pub open spec fn first_key<K, V>(s: Seq<(K, V)>, key: K) -> Option<int> {
    if exists|k: int| is_first(s, key, k) {
        Some(choose|k: int| is_first(s, key, k))
    } else {
        None
    }
}

/// The left-hand sides of a list of pairs.
pub open spec fn lefts<K, V>(s: Seq<(K, V)>) -> Seq<K> {
    s.map_values(|p: (K, V)| p.0)
}

/// A list with every occurrence of one item taken out.
pub open spec fn removed(s: Seq<Seq<char>>, b: Seq<char>) -> Seq<Seq<char>>
    decreases s.len(),
{
    if s.len() == 0 {
        s
    } else {
        let r = removed(s.drop_last(), b);
        if s.last() == b { r } else { r.push(s.last()) }
    }
}

/// A list with nothing in it twice, the first of each kept.
pub open spec fn distinct_of(s: Seq<Seq<char>>) -> Seq<Seq<char>>
    decreases s.len(),
{
    if s.len() == 0 {
        s
    } else {
        let r = distinct_of(s.drop_last());
        if r.contains(s.last()) { r } else { r.push(s.last()) }
    }
}

/// The bindings an action has, or none.
pub open spec fn list_of(lists: Seq<(Action, Seq<Seq<char>>)>, a: Action) -> Seq<Seq<char>> {
    match first_key(lists, a) {
        Some(k) => lists[k].1,
        None => Seq::empty(),
    }
}

/// One binding taken off one action's list.
pub open spec fn without(lists: Seq<(Action, Seq<Seq<char>>)>, a: Action, b: Seq<char>) -> Seq<(Action, Seq<Seq<char>>)> {
    match first_key(lists, a) {
        Some(k) => lists.update(k, (lists[k].0, removed(lists[k].1, b))),
        None => lists,
    }
}

/// What `keys.toml` says of an action, if it names it.
pub open spec fn override_for(ov: Seq<(Seq<char>, Seq<Seq<char>>)>, name: Seq<char>) -> Option<Seq<Seq<char>>> {
    match first_key(ov, name) {
        Some(k) => Some(ov[k].1),
        None => None,
    }
}

/// Whether the file names the action at all.
pub open spec fn in_file(ov: Seq<(Seq<char>, Seq<Seq<char>>)>, a: Action) -> bool {
    lefts(ov).contains(name_of(a))
}

/// The names in the file that are no action's, each said as a problem.
pub open spec fn unknown_names(ov: Seq<(Seq<char>, Seq<Seq<char>>)>) -> Seq<Seq<char>>
    decreases ov.len(),
{
    if ov.len() == 0 {
        Seq::empty()
    } else {
        let p = unknown_names(ov.drop_last());
        if first_named(all_actions(), ov.last().0) is None {
            p.push(ov.last().0 + " is not something Moonowl can do."@)
        } else {
            p
        }
    }
}

/// An action's keys as the file gives them: each read as a binding, none
/// twice, and each one that cannot be read said as a problem.
pub open spec fn read_keys(given: Seq<Seq<char>>, a: Action, mac: bool) -> (Seq<Seq<char>>, Seq<Seq<char>>)
    decreases given.len(),
{
    if given.len() == 0 {
        (Seq::empty(), Seq::empty())
    } else {
        let (chords, probs) = read_keys(given.drop_last(), a, mac);
        let text = given.last();
        match binding_of(text, mac) {
            Some(b) => if chords.contains(b) { (chords, probs) } else { (chords.push(b), probs) },
            None => (chords, probs.push(name_of(a) + ": \""@ + text + "\" is not a key Moonowl can read."@)),
        }
    }
}

/// What an action answers to out of the box.
pub open spec fn defaults_of(a: Action, mac: bool) -> Seq<Seq<char>> {
    row_of_action(a).3 + (if mac { row_of_action(a).4 } else { row_of_action(a).5 })
}

/// An action's keys before any two actions are weighed against each other.
pub open spec fn asked_keys(ov: Seq<(Seq<char>, Seq<Seq<char>>)>, a: Action, mac: bool) -> Seq<Seq<char>> {
    match override_for(ov, name_of(a)) {
        Some(given) => read_keys(given, a, mac).0,
        None => distinct_of(defaults_of(a, mac)),
    }
}

/// The problems reading the file's keys for the actions `acts`, in order.
pub open spec fn read_problems(ov: Seq<(Seq<char>, Seq<Seq<char>>)>, acts: Seq<Action>, mac: bool) -> Seq<Seq<char>>
    decreases acts.len(),
{
    if acts.len() == 0 {
        Seq::empty()
    } else {
        let p = read_problems(ov, acts.drop_last(), mac);
        match override_for(ov, name_of(acts.last())) {
            Some(given) => p + read_keys(given, acts.last(), mac).1,
            None => p,
        }
    }
}

/// Every action with its keys, in table order.
pub open spec fn asked(ov: Seq<(Seq<char>, Seq<Seq<char>>)>, acts: Seq<Action>, mac: bool) -> Seq<(Action, Seq<Seq<char>>)> {
    acts.map_values(|a: Action| (a, asked_keys(ov, a, mac)))
}

/// The bindings, the lists and the problems, part way through.
pub struct Settled {
    pub bindings: Seq<(Seq<char>, Action)>,
    pub lists: Seq<(Action, Seq<Seq<char>>)>,
    pub problems: Seq<Seq<char>>,
}

/// What a chord claimed twice is said as.
pub open spec fn claimed_twice(b: Seq<char>, winner: Action, loser: Action, mac: bool) -> Seq<char> {
    binding_described(b, mac) + " is asked to do two things \u{2014} "@ + name_of(winner) + " has it, "@
        + name_of(loser) + " does not."@
}

/// One binding of action `a` weighed against the bindings so far: a chord
/// nobody has is `a`'s; a chord somebody has goes to whichever of the two
/// the file names, and otherwise stays with the first.
pub open spec fn settle_one(st: Settled, a: Action, b: Seq<char>, ov: Seq<(Seq<char>, Seq<Seq<char>>)>, mac: bool) -> Settled {
    match first_key(st.bindings, b) {
        None => Settled { bindings: st.bindings.push((b, a)), ..st },
        Some(k) => {
            let taken = st.bindings[k].1;
            let loser = if in_file(ov, a) && !in_file(ov, taken) { taken } else { a };
            let winner = if loser == a { taken } else { a };
            Settled {
                bindings: if loser == taken { st.bindings.update(k, (b, a)) } else { st.bindings },
                lists: without(st.lists, loser, b),
                problems: st.problems.push(claimed_twice(b, winner, loser, mac)),
            }
        },
    }
}

/// The bindings `bs` of action `a`, weighed in turn.
pub open spec fn settle_list(st: Settled, a: Action, bs: Seq<Seq<char>>, ov: Seq<(Seq<char>, Seq<Seq<char>>)>, mac: bool) -> Settled
    decreases bs.len(),
{
    if bs.len() == 0 {
        st
    } else {
        settle_one(settle_list(st, a, bs.drop_last(), ov, mac), a, bs.last(), ov, mac)
    }
}

/// The actions `acts` in turn, each with the list it has when its turn comes.
pub open spec fn settle(st: Settled, acts: Seq<Action>, ov: Seq<(Seq<char>, Seq<Seq<char>>)>, mac: bool) -> Settled
    decreases acts.len(),
{
    if acts.len() == 0 {
        st
    } else {
        let s1 = settle(st, acts.drop_last(), ov, mac);
        settle_list(s1, acts.last(), list_of(s1.lists, acts.last()), ov, mac)
    }
}

/// The first `cut` chords of a binding, as a binding.
pub open spec fn head_of(b: Seq<char>, cut: int) -> Seq<char> {
    join(split_on(b, ' ').take(cut), seq![' '])
}

/// How many chords a binding is.
pub open spec fn chord_count(b: Seq<char>) -> int {
    split_on(b, ' ').len() as int
}

/// The first cut from `cut` on whose head is itself bound.
pub open spec fn first_cut(bb: Seq<(Seq<char>, Action)>, b: Seq<char>, cut: int) -> Option<int>
    decreases chord_count(b) - cut,
{
    if cut < 1 || cut >= chord_count(b) {
        None
    } else if lefts(bb).contains(head_of(b, cut)) {
        Some(cut)
    } else {
        first_cut(bb, b, cut + 1)
    }
}

/// What a binding that can never be pressed is said as.
pub open spec fn shadowed(b: Seq<char>, head: Seq<char>, mac: bool) -> Seq<char> {
    binding_described(b, mac) + " can never be pressed: "@ + binding_described(head, mac)
        + " already does something on its own."@
}

/// A binding that begins with another bound one is dropped: the shorter one
/// keeps the key, because a key that waits is a key that feels broken.
pub open spec fn prune_one(st: Settled, b: Seq<char>, mac: bool) -> Settled {
    match first_cut(st.bindings, b, 1) {
        None => st,
        Some(cut) => {
            let probs = st.problems.push(shadowed(b, head_of(b, cut), mac));
            match first_key(st.bindings, b) {
                Some(k) => Settled {
                    bindings: st.bindings.remove(k),
                    lists: without(st.lists, st.bindings[k].1, b),
                    problems: probs,
                },
                None => Settled { problems: probs, ..st },
            }
        },
    }
}

/// The bindings `bs` looked at in turn.
pub open spec fn prune(st: Settled, bs: Seq<Seq<char>>, mac: bool) -> Settled
    decreases bs.len(),
{
    if bs.len() == 0 {
        st
    } else {
        prune_one(prune(st, bs.drop_last(), mac), bs.last(), mac)
    }
}

/// Everything `Keymap::build` decides: the defaults, the file over them,
/// chords claimed twice settled, and bindings that could never be pressed
/// dropped.
pub open spec fn built(ov: Seq<(Seq<char>, Seq<Seq<char>>)>, mac: bool) -> Settled {
    let first = Settled {
        bindings: Seq::empty(),
        lists: asked(ov, all_actions(), mac),
        problems: unknown_names(ov) + read_problems(ov, all_actions(), mac),
    };
    let second = settle(first, all_actions(), ov, mac);
    prune(second, lefts(second.bindings), mac)
}

/// The chords that begin a longer binding.
pub open spec fn prefix_set(bb: Seq<(Seq<char>, Action)>) -> Set<Seq<char>> {
    Set::new(|p: Seq<char>| exists|k: int, cut: int|
        0 <= k < bb.len() && 1 <= cut < chord_count(bb[k].0) && p == #[trigger] head_of(bb[k].0, cut))
}

/* ------------------------------------------------------ lists of pairs */

proof fn lemma_first_unique<K, V>(s: Seq<(K, V)>, key: K, k: int)
    requires
        is_first(s, key, k),
    ensures
        first_key(s, key) == Some(k),
{
    let c = choose|j: int| is_first(s, key, j);
    assert(is_first(s, key, c));
    if c < k {
        assert(s[c].0 != key);
    } else if k < c {
        assert(s[k].0 != key);
    }
}

proof fn lemma_first_none<K, V>(s: Seq<(K, V)>, key: K)
    requires
        !lefts(s).contains(key),
    ensures
        first_key(s, key) is None,
{
    if exists|k: int| is_first(s, key, k) {
        let k = choose|k: int| is_first(s, key, k);
        assert(lefts(s)[k] == key);
    }
}

proof fn lemma_first_some<K, V>(s: Seq<(K, V)>, key: K)
    requires
        lefts(s).contains(key),
    ensures
        first_key(s, key) matches Some(k) && is_first(s, key, k),
    decreases s.len(),
{
    let i = choose|i: int| 0 <= i < lefts(s).len() && lefts(s)[i] == key;
    if s[0].0 == key {
        assert(is_first(s, key, 0));
        lemma_first_unique(s, key, 0);
    } else {
        let t = s.drop_first();
        assert(lefts(t)[i - 1] == key);
        lemma_first_some(t, key);
        let k = first_key(t, key)->0;
        assert(is_first(s, key, k + 1)) by {
            assert forall|j: int| 0 <= j < k + 1 implies s[j].0 != key by {
                if j > 0 { assert(s[j] == t[j - 1]); }
            }
        }
        lemma_first_unique(s, key, k + 1);
    }
}

/// The keys of a list of pairs, none twice.
pub open spec fn keys_distinct<K, V>(s: Seq<(K, V)>) -> bool {
    forall|i: int, j: int| 0 <= i < j < s.len() ==> s[i].0 != s[j].0
}

/* ------------------------------------------------------------- the map */

/// The bindings in force: the defaults, with the reader's file over the top.
pub struct Keymap {
    /// Binding → the action it asks for. No binding is in it twice.
    pub by_binding: Vec<(String, Action)>,
    /// Every binding of every action, in the order they are offered, the
    /// actions in table order.
    pub by_action: Vec<(Action, Vec<String>)>,
    /// Chords that begin a longer binding and mean nothing on their own.
    pub prefixes: Vec<String>,
    /// Lines of `keys.toml` this app could not use, in the words the reader
    /// needs to fix them. Empty is the normal case.
    pub problems: Vec<String>,
    /// Whether the chords were read as a Mac reads them.
    pub mac: bool,
}

/// What a keystroke came to.
#[derive(Clone, Debug, PartialEq)]
pub enum Press {
    /// Do this.
    Act(Action),
    /// The first half of a sequence: hold it and see what comes next.
    Wait(String),
    /// Nothing is bound to it, and whatever was pending is dropped.
    Nothing,
}

pub open spec fn bound_view(v: Seq<(String, Action)>) -> Seq<(Seq<char>, Action)> {
    v.map_values(|p: (String, Action)| (p.0@, p.1))
}

pub open spec fn lists_view(v: Seq<(Action, Vec<String>)>) -> Seq<(Action, Seq<Seq<char>>)> {
    v.map_values(|p: (Action, Vec<String>)| (p.0, texts(p.1@)))
}

pub open spec fn file_view(v: Seq<(String, Vec<String>)>) -> Seq<(Seq<char>, Seq<Seq<char>>)> {
    v.map_values(|p: (String, Vec<String>)| (p.0@, texts(p.1@)))
}

impl Keymap {
    /// The three things the map is made of, as they are built.
    pub open spec fn settled(&self) -> Settled {
        Settled {
            bindings: bound_view(self.by_binding@),
            lists: lists_view(self.by_action@),
            problems: texts(self.problems@),
        }
    }
}

fn copy_texts(v: &Vec<String>) -> (r: Vec<String>)
    ensures
        texts(r@) == texts(v@),
{
    let mut out: Vec<String> = Vec::new();
    let mut i: usize = 0;
    while i < v.len()
        invariant
            i <= v@.len(),
            texts(out@) == texts(v@).take(i as int),
        decreases v@.len() - i,
    {
        let ghost before = out@;
        out.push(v[i].clone());
        proof {
            assert(texts(out@) =~= texts(before).push(v@[i as int]@));
            assert(texts(v@).take(i + 1) =~= texts(v@).take(i as int).push(v@[i as int]@));
        }
        i = i + 1;
    }
    proof { assert(texts(v@).take(v@.len() as int) =~= texts(v@)); }
    out
}

fn find_binding(v: &Vec<(String, Action)>, b: &str) -> (r: Option<usize>)
    ensures
        match r {
            Some(k) => is_first(bound_view(v@), b@, k as int),
            None => !lefts(bound_view(v@)).contains(b@),
        },
{
    let mut i: usize = 0;
    while i < v.len()
        invariant
            i <= v@.len(),
            forall|j: int| 0 <= j < i ==> bound_view(v@)[j].0 != b@,
        decreases v@.len() - i,
    {
        if same(v[i].0.as_str(), b) {
            return Some(i);
        }
        i = i + 1;
    }
    proof {
        if lefts(bound_view(v@)).contains(b@) {
            let k = choose|k: int| 0 <= k < lefts(bound_view(v@)).len() && lefts(bound_view(v@))[k] == b@;
            assert(bound_view(v@)[k].0 == b@);
        }
    }
    None
}

fn find_list(v: &Vec<(Action, Vec<String>)>, a: Action) -> (r: Option<usize>)
    ensures
        match r {
            Some(k) => is_first(lists_view(v@), a, k as int),
            None => !lefts(lists_view(v@)).contains(a),
        },
{
    let mut i: usize = 0;
    while i < v.len()
        invariant
            i <= v@.len(),
            forall|j: int| 0 <= j < i ==> lists_view(v@)[j].0 != a,
        decreases v@.len() - i,
    {
        if v[i].0 == a {
            return Some(i);
        }
        i = i + 1;
    }
    proof {
        if lefts(lists_view(v@)).contains(a) {
            let k = choose|k: int| 0 <= k < lefts(lists_view(v@)).len() && lefts(lists_view(v@))[k] == a;
            assert(lists_view(v@)[k].0 == a);
        }
    }
    None
}

fn find_entry(v: &Vec<(String, Vec<String>)>, name: &str) -> (r: Option<usize>)
    ensures
        match r {
            Some(k) => is_first(file_view(v@), name@, k as int),
            None => !lefts(file_view(v@)).contains(name@),
        },
{
    let mut i: usize = 0;
    while i < v.len()
        invariant
            i <= v@.len(),
            forall|j: int| 0 <= j < i ==> file_view(v@)[j].0 != name@,
        decreases v@.len() - i,
    {
        if same(v[i].0.as_str(), name) {
            return Some(i);
        }
        i = i + 1;
    }
    proof {
        if lefts(file_view(v@)).contains(name@) {
            let k = choose|k: int| 0 <= k < lefts(file_view(v@)).len() && lefts(file_view(v@))[k] == name@;
            assert(file_view(v@)[k].0 == name@);
        }
    }
    None
}

fn removing(list: &Vec<String>, b: &str) -> (r: Vec<String>)
    ensures
        texts(r@) == removed(texts(list@), b@),
{
    let mut out: Vec<String> = Vec::new();
    let mut i: usize = 0;
    while i < list.len()
        invariant
            i <= list@.len(),
            texts(out@) == removed(texts(list@).take(i as int), b@),
        decreases list@.len() - i,
    {
        proof { assert(texts(list@).take(i + 1).drop_last() =~= texts(list@).take(i as int)); }
        if !same(list[i].as_str(), b) {
            let ghost before = out@;
            out.push(list[i].clone());
            proof { assert(texts(out@) =~= texts(before).push(list@[i as int]@)); }
        }
        i = i + 1;
    }
    proof { assert(texts(list@).take(list@.len() as int) =~= texts(list@)); }
    out
}

/// One binding taken off one action's list.
fn drop_binding(by_action: &mut Vec<(Action, Vec<String>)>, action: Action, binding: &str)
    ensures
        lists_view(final(by_action)@) == without(lists_view(old(by_action)@), action, binding@),
{
    match find_list(by_action, action) {
        Some(k) => {
            proof { lemma_first_unique(lists_view(by_action@), action, k as int); }
            let kept = removing(&by_action[k].1, binding);
            by_action.set(k, (action, kept));
            proof {
                assert(lists_view(by_action@) =~= without(lists_view(old(by_action)@), action, binding@));
            }
        },
        None => {
            proof { lemma_first_none(lists_view(by_action@), action); }
        },
    }
}

/* ------------------------------------------------------------- building */

/// The names in the file that are no action's.
fn unknown(overrides: &Vec<(String, Vec<String>)>) -> (r: Vec<String>)
    ensures
        texts(r@) == unknown_names(file_view(overrides@)),
{
    let ghost ov = file_view(overrides@);
    let mut out: Vec<String> = Vec::new();
    let mut i: usize = 0;
    while i < overrides.len()
        invariant
            ov == file_view(overrides@),
            i <= overrides@.len(),
            texts(out@) == unknown_names(ov.take(i as int)),
        decreases overrides@.len() - i,
    {
        proof {
            assert(ov.take(i + 1).drop_last() =~= ov.take(i as int));
            assert(ov.take(i + 1).last() == ov[i as int]);
        }
        if Action::from_name(overrides[i].0.as_str()).is_none() {
            let mut message = overrides[i].0.clone();
            push_str(&mut message, " is not something Moonowl can do.");
            let ghost before = out@;
            out.push(message);
            proof { assert(texts(out@) =~= texts(before).push(message@)); }
        }
        i = i + 1;
    }
    proof { assert(ov.take(overrides@.len() as int) =~= ov); }
    out
}

/// An action's keys as the file gives them.
fn read_given(given: &Vec<String>, a: Action, mac: bool, problems: &mut Vec<String>) -> (r: Vec<String>)
    ensures
        texts(r@) == read_keys(texts(given@), a, mac).0,
        texts(final(problems)@) == texts(old(problems)@) + read_keys(texts(given@), a, mac).1,
{
    let ghost g = texts(given@);
    let mut chords: Vec<String> = Vec::new();
    let mut i: usize = 0;
    proof { assert(texts(problems@) =~= texts(old(problems)@) + read_keys(g.take(0), a, mac).1); }
    while i < given.len()
        invariant
            g == texts(given@),
            i <= given@.len(),
            texts(chords@) == read_keys(g.take(i as int), a, mac).0,
            texts(problems@) == texts(old(problems)@) + read_keys(g.take(i as int), a, mac).1,
        decreases given@.len() - i,
    {
        proof {
            assert(g.take(i + 1).drop_last() =~= g.take(i as int));
            assert(g.take(i + 1).last() == given@[i as int]@);
        }
        match parse_binding(given[i].as_str(), mac) {
            Some(binding) => {
                if !has_text(&chords, &binding) {
                    let ghost before = chords@;
                    chords.push(binding);
                    proof { assert(texts(chords@) =~= texts(before).push(binding@)); }
                }
            },
            None => {
                let mut message = string_of(chars_of(a.as_str()).as_slice());
                push_str(&mut message, ": \"");
                push_str(&mut message, given[i].as_str());
                push_str(&mut message, "\" is not a key Moonowl can read.");
                let ghost before = problems@;
                problems.push(message);
                proof {
                    assert(texts(problems@) =~= texts(before).push(message@));
                    assert(texts(problems@) =~= texts(old(problems)@) + read_keys(g.take(i + 1), a, mac).1);
                }
            },
        }
        i = i + 1;
    }
    proof { assert(g.take(given@.len() as int) =~= g); }
    chords
}

/// A list of keys with nothing in it twice.
fn distinct_keys(keys: &Vec<&'static str>) -> (r: Vec<String>)
    ensures
        texts(r@) == distinct_of(names(keys@)),
{
    let ghost n = names(keys@);
    let mut out: Vec<String> = Vec::new();
    let mut i: usize = 0;
    while i < keys.len()
        invariant
            n == names(keys@),
            i <= keys@.len(),
            texts(out@) == distinct_of(n.take(i as int)),
        decreases keys@.len() - i,
    {
        proof {
            assert(n.take(i + 1).drop_last() =~= n.take(i as int));
            assert(n.take(i + 1).last() == keys@[i as int]@);
        }
        let key = string_of(chars_of(keys[i]).as_slice());
        if !has_text(&out, &key) {
            let ghost before = out@;
            out.push(key);
            proof { assert(texts(out@) =~= texts(before).push(key@)); }
        }
        i = i + 1;
    }
    proof { assert(n.take(keys@.len() as int) =~= n); }
    out
}

/// Every action with the keys it asks for, in table order.
fn asked_lists(overrides: &Vec<(String, Vec<String>)>, mac: bool, problems: &mut Vec<String>) -> (r: Vec<(Action, Vec<String>)>)
    ensures
        lists_view(r@) == asked(file_view(overrides@), all_actions(), mac),
        texts(final(problems)@) == texts(old(problems)@) + read_problems(file_view(overrides@), all_actions(), mac),
{
    let ghost ov = file_view(overrides@);
    let specs = every();
    let mut out: Vec<(Action, Vec<String>)> = Vec::new();
    let mut i: usize = 0;
    proof {
        assert(all_actions().len() == specs@.len()) by {
            assert(specs@.map_values(|s: crate::keymap::Spec| s.id).len() == specs@.len());
        }
        assert(texts(problems@) =~= texts(old(problems)@) + read_problems(ov, all_actions().take(0), mac));
    }
    while i < specs.len()
        invariant
            ov == file_view(overrides@),
            specs@.map_values(|s: crate::keymap::Spec| s.id) == all_actions(),
            forall|k: int| 0 <= k < specs@.len() ==> #[trigger] specs@[k].view() == row_of_action(specs@[k].id),
            i <= specs@.len(),
            lists_view(out@) == asked(ov, all_actions().take(i as int), mac),
            texts(problems@) == texts(old(problems)@) + read_problems(ov, all_actions().take(i as int), mac),
        decreases specs@.len() - i,
    {
        let spec = &specs[i];
        let a = spec.id;
        proof {
            assert(all_actions()[i as int] == a) by {
                assert(specs@.map_values(|s: crate::keymap::Spec| s.id)[i as int] == specs@[i as int].id);
            }
            assert(all_actions().take(i + 1).drop_last() =~= all_actions().take(i as int));
            assert(all_actions().take(i + 1).last() == a);
        }
        let keys = match find_entry(overrides, a.as_str()) {
            Some(k) => {
                proof { lemma_first_unique(ov, name_of(a), k as int); }
                read_given(&overrides[k].1, a, mac, problems)
            },
            None => {
                proof { lemma_first_none(ov, name_of(a)); }
                let defaults = default_keys(spec, mac);
                proof { assert(names(defaults@) == defaults_of(a, mac)); }
                distinct_keys(&defaults)
            },
        };
        let ghost before = out@;
        out.push((a, keys));
        proof {
            assert(lists_view(out@) =~= lists_view(before).push((a, asked_keys(ov, a, mac))));
            assert(asked(ov, all_actions().take(i + 1), mac) =~= asked(ov, all_actions().take(i as int), mac).push((a, asked_keys(ov, a, mac))));
        }
        i = i + 1;
    }
    proof {
        assert(all_actions().take(specs@.len() as int) =~= all_actions());
    }
    out
}

pub open spec fn triple(bb: Seq<(String, Action)>, ba: Seq<(Action, Vec<String>)>, pr: Seq<String>) -> Settled {
    Settled { bindings: bound_view(bb), lists: lists_view(ba), problems: texts(pr) }
}

/// Whether the file names the action.
fn named_in(overrides: &Vec<(String, Vec<String>)>, a: Action) -> (r: bool)
    ensures
        r == in_file(file_view(overrides@), a),
{
    match find_entry(overrides, a.as_str()) {
        Some(k) => {
            proof { assert(lefts(file_view(overrides@))[k as int] == name_of(a)); }
            true
        },
        None => false,
    }
}

fn claim_message(b: &str, winner: Action, loser: Action, mac: bool) -> (r: String)
    ensures
        r@ == claimed_twice(b@, winner, loser, mac),
{
    let mut message = describe_binding(b, mac);
    push_str(&mut message, " is asked to do two things \u{2014} ");
    push_str(&mut message, winner.as_str());
    push_str(&mut message, " has it, ");
    push_str(&mut message, loser.as_str());
    push_str(&mut message, " does not.");
    message
}

/// One binding of action `a` weighed against the bindings so far.
fn settle_binding(
    by_binding: &mut Vec<(String, Action)>,
    by_action: &mut Vec<(Action, Vec<String>)>,
    problems: &mut Vec<String>,
    a: Action,
    b: &String,
    overrides: &Vec<(String, Vec<String>)>,
    mac: bool,
)
    ensures
        triple(final(by_binding)@, final(by_action)@, final(problems)@)
            == settle_one(triple(old(by_binding)@, old(by_action)@, old(problems)@), a, b@, file_view(overrides@), mac),
{
    let ghost st = triple(by_binding@, by_action@, problems@);
    match find_binding(by_binding, b.as_str()) {
        None => {
            proof { lemma_first_none(bound_view(by_binding@), b@); }
            by_binding.push((b.clone(), a));
            proof {
                assert(bound_view(by_binding@) =~= bound_view(old(by_binding)@).push((b@, a)));
            }
        },
        Some(k) => {
            proof { lemma_first_unique(bound_view(by_binding@), b@, k as int); }
            let taken = by_binding[k].1;
            let mine = named_in(overrides, a);
            let theirs = named_in(overrides, taken);
            let loser = if mine && !theirs { taken } else { a };
            let winner = if loser == a { taken } else { a };
            if loser == taken {
                by_binding.set(k, (b.clone(), a));
                proof {
                    assert(bound_view(by_binding@) =~= bound_view(old(by_binding)@).update(k as int, (b@, a)));
                }
            }
            let message = claim_message(b.as_str(), winner, loser, mac);
            let ghost before = problems@;
            problems.push(message);
            proof { assert(texts(problems@) =~= texts(before).push(message@)); }
            drop_binding(by_action, loser, b.as_str());
        },
    }
}

/// The actions in table order, each with the list it has when its turn comes.
fn settle_all(
    by_binding: &mut Vec<(String, Action)>,
    by_action: &mut Vec<(Action, Vec<String>)>,
    problems: &mut Vec<String>,
    overrides: &Vec<(String, Vec<String>)>,
    mac: bool,
)
    ensures
        triple(final(by_binding)@, final(by_action)@, final(problems)@)
            == settle(triple(old(by_binding)@, old(by_action)@, old(problems)@), all_actions(), file_view(overrides@), mac),
{
    let ghost start = triple(by_binding@, by_action@, problems@);
    let ghost ov = file_view(overrides@);
    let all = Action::all();
    let mut i: usize = 0;
    proof { assert(all_actions().take(0) =~= Seq::<Action>::empty()); }
    while i < all.len()
        invariant
            all@ == all_actions(),
            ov == file_view(overrides@),
            i <= all@.len(),
            triple(by_binding@, by_action@, problems@) == settle(start, all_actions().take(i as int), ov, mac),
        decreases all@.len() - i,
    {
        let a = all[i];
        proof {
            assert(all_actions().take(i + 1).drop_last() =~= all_actions().take(i as int));
            assert(all_actions().take(i + 1).last() == a);
        }
        let ghost s1 = triple(by_binding@, by_action@, problems@);
        let list = match find_list(by_action, a) {
            Some(k) => {
                proof { lemma_first_unique(lists_view(by_action@), a, k as int); }
                copy_texts(&by_action[k].1)
            },
            None => {
                proof { lemma_first_none(lists_view(by_action@), a); }
                Vec::new()
            },
        };
        proof {
            assert(texts(list@) == list_of(s1.lists, a));
            assert(texts(list@).take(0) =~= Seq::<Seq<char>>::empty());
        }
        let mut j: usize = 0;
        while j < list.len()
            invariant
                ov == file_view(overrides@),
                j <= list@.len(),
                triple(by_binding@, by_action@, problems@) == settle_list(s1, a, texts(list@).take(j as int), ov, mac),
            decreases list@.len() - j,
        {
            proof {
                assert(texts(list@).take(j + 1).drop_last() =~= texts(list@).take(j as int));
                assert(texts(list@).take(j + 1).last() == list@[j as int]@);
            }
            settle_binding(by_binding, by_action, problems, a, &list[j], overrides, mac);
            j = j + 1;
        }
        proof { assert(texts(list@).take(list@.len() as int) =~= texts(list@)); }
        i = i + 1;
    }
    proof { assert(all_actions().take(all@.len() as int) =~= all_actions()); }
}

fn keys_of(v: &Vec<(String, Action)>) -> (r: Vec<String>)
    ensures
        texts(r@) == lefts(bound_view(v@)),
{
    let mut out: Vec<String> = Vec::new();
    let mut i: usize = 0;
    while i < v.len()
        invariant
            i <= v@.len(),
            texts(out@) == lefts(bound_view(v@)).take(i as int),
        decreases v@.len() - i,
    {
        let ghost before = out@;
        out.push(v[i].0.clone());
        proof {
            assert(texts(out@) =~= texts(before).push(v@[i as int].0@));
            assert(lefts(bound_view(v@)).take(i + 1) =~= lefts(bound_view(v@)).take(i as int).push(v@[i as int].0@));
        }
        i = i + 1;
    }
    proof { assert(lefts(bound_view(v@)).take(v@.len() as int) =~= lefts(bound_view(v@))); }
    out
}

/// The first `cut` chords, written as a binding.
fn head_text(chords: &Vec<Vec<char>>, cut: usize) -> (r: String)
    requires
        cut <= chords@.len(),
    ensures
        r@ == join(views(chords@).take(cut as int), seq![' ']),
{
    let mut parts: Vec<String> = Vec::new();
    let mut i: usize = 0;
    while i < cut
        invariant
            cut <= chords@.len(),
            i <= cut,
            texts(parts@) == views(chords@).take(i as int),
        decreases cut - i,
    {
        let ghost before = parts@;
        parts.push(string_of(chords[i].as_slice()));
        proof {
            assert(texts(parts@) =~= texts(before).push(chords@[i as int]@));
            assert(views(chords@).take(i + 1) =~= views(chords@).take(i as int).push(chords@[i as int]@));
        }
        i = i + 1;
    }
    proof { crate::keymap::strlits_of_signs(); }
    join_with(&parts, " ")
}

fn shadow_message(b: &str, head: &str, mac: bool) -> (r: String)
    ensures
        r@ == shadowed(b@, head@, mac),
{
    let mut message = describe_binding(b, mac);
    push_str(&mut message, " can never be pressed: ");
    let h = describe_binding(head, mac);
    push_str(&mut message, h.as_str());
    push_str(&mut message, " already does something on its own.");
    message
}

/// A binding dropped if it begins with another bound one.
fn prune_binding(
    by_binding: &mut Vec<(String, Action)>,
    by_action: &mut Vec<(Action, Vec<String>)>,
    problems: &mut Vec<String>,
    b: &String,
    mac: bool,
)
    ensures
        triple(final(by_binding)@, final(by_action)@, final(problems)@)
            == prune_one(triple(old(by_binding)@, old(by_action)@, old(problems)@), b@, mac),
{
    let typed = chars_of(b.as_str());
    let chords = split_at_char(typed.as_slice(), ' ');
    let ghost bb = bound_view(by_binding@);
    let mut cut: usize = 1;
    while cut < chords.len()
        invariant
            views(chords@) == split_on(b@, ' '),
            bb == bound_view(by_binding@),
            by_binding@ == old(by_binding)@,
            by_action@ == old(by_action)@,
            problems@ == old(problems)@,
            1 <= cut,
            first_cut(bb, b@, 1) == first_cut(bb, b@, cut as int),
        decreases chords@.len() - cut,
    {
        let head = head_text(&chords, cut);
        match find_binding(by_binding, head.as_str()) {
            Some(hk) => {
                proof {
                    assert(lefts(bb)[hk as int] == head@);
                    assert(first_cut(bb, b@, cut as int) == Some(cut as int));
                }
                let message = shadow_message(b.as_str(), head.as_str(), mac);
                let ghost before = problems@;
                problems.push(message);
                proof { assert(texts(problems@) =~= texts(before).push(message@)); }
                match find_binding(by_binding, b.as_str()) {
                    Some(k) => {
                        proof { lemma_first_unique(bb, b@, k as int); }
                        let action = by_binding[k].1;
                        drop_binding(by_action, action, b.as_str());
                        by_binding.remove(k);
                        proof { assert(bound_view(by_binding@) =~= bb.remove(k as int)); }
                    },
                    None => {
                        proof { lemma_first_none(bb, b@); }
                    },
                }
                return;
            },
            None => {},
        }
        cut = cut + 1;
    }
    proof { assert(first_cut(bb, b@, cut as int) is None); }
}

/// Every binding in force looked at in turn.
fn prune_all(
    by_binding: &mut Vec<(String, Action)>,
    by_action: &mut Vec<(Action, Vec<String>)>,
    problems: &mut Vec<String>,
    mac: bool,
)
    ensures
        triple(final(by_binding)@, final(by_action)@, final(problems)@)
            == prune(triple(old(by_binding)@, old(by_action)@, old(problems)@), lefts(bound_view(old(by_binding)@)), mac),
{
    let ghost start = triple(by_binding@, by_action@, problems@);
    let keys = keys_of(by_binding);
    let ghost ks = texts(keys@);
    let mut i: usize = 0;
    proof { assert(ks.take(0) =~= Seq::<Seq<char>>::empty()); }
    while i < keys.len()
        invariant
            ks == texts(keys@),
            ks == lefts(bound_view(old(by_binding)@)),
            i <= keys@.len(),
            triple(by_binding@, by_action@, problems@) == prune(start, ks.take(i as int), mac),
        decreases keys@.len() - i,
    {
        proof {
            assert(ks.take(i + 1).drop_last() =~= ks.take(i as int));
            assert(ks.take(i + 1).last() == keys@[i as int]@);
        }
        prune_binding(by_binding, by_action, problems, &keys[i], mac);
        i = i + 1;
    }
    proof { assert(ks.take(keys@.len() as int) =~= ks); }
}

/// The heads of the bindings before the `k`th, and of the `k`th before `cut`.
pub open spec fn heads_before(bb: Seq<(Seq<char>, Action)>, k: int, cut: int, p: Seq<char>) -> bool {
    exists|k2: int, c2: int|
        0 <= k2 < bb.len() && 1 <= c2 < chord_count(bb[k2].0) && (k2 < k || (k2 == k && c2 < cut))
            && p == #[trigger] head_of(bb[k2].0, c2)
}

/// The chords that begin a longer binding, none twice.
fn prefixes_from(by_binding: &Vec<(String, Action)>) -> (r: Vec<String>)
    ensures
        texts(r@).to_set() == prefix_set(bound_view(by_binding@)),
        texts(r@).no_duplicates(),
{
    let ghost bb = bound_view(by_binding@);
    let mut out: Vec<String> = Vec::new();
    let mut k: usize = 0;
    while k < by_binding.len()
        invariant
            bb == bound_view(by_binding@),
            k <= by_binding@.len(),
            texts(out@).no_duplicates(),
            forall|i: int| 0 <= i < out@.len() ==> heads_before(bb, k as int, 0, #[trigger] texts(out@)[i]),
            forall|p: Seq<char>| heads_before(bb, k as int, 0, p) ==> texts(out@).contains(p),
        decreases by_binding@.len() - k,
    {
        let typed = chars_of(by_binding[k].0.as_str());
        let chords = split_at_char(typed.as_slice(), ' ');
        let mut cut: usize = 1;
        while cut < chords.len()
            invariant
                bb == bound_view(by_binding@),
                k < by_binding@.len(),
                views(chords@) == split_on(bb[k as int].0, ' '),
                1 <= cut,
                texts(out@).no_duplicates(),
                forall|i: int| 0 <= i < out@.len() ==> heads_before(bb, k as int, cut as int, #[trigger] texts(out@)[i]),
                forall|p: Seq<char>| heads_before(bb, k as int, cut as int, p) ==> texts(out@).contains(p),
            decreases chords@.len() - cut,
        {
            let head = head_text(&chords, cut);
            proof {
                assert(head@ == head_of(bb[k as int].0, cut as int));
            }
            let ghost h = head@;
            let ghost prev = out@;
            if !has_text(&out, &head) {
                let ghost before = out@;
                out.push(head);
                proof {
                    assert(texts(out@) =~= texts(before).push(h));
                    assert(texts(out@)[before.len() as int] == h);
                    assert(texts(out@).contains(h));
                    assert forall|i: int, j: int| 0 <= i < j < texts(out@).len() implies texts(out@)[i] != texts(out@)[j] by {
                        if j == before.len() {
                            assert(texts(before)[i] == texts(out@)[i]);
                        } else {
                            assert(texts(before)[i] == texts(out@)[i]);
                            assert(texts(before)[j] == texts(out@)[j]);
                        }
                    }
                    assert forall|i: int| 0 <= i < out@.len() implies heads_before(bb, k as int, cut + 1, #[trigger] texts(out@)[i]) by {
                        if i < before.len() {
                            assert(texts(out@)[i] == texts(before)[i]);
                            assert(heads_before(bb, k as int, cut as int, texts(before)[i]));
                        } else {
                            assert(head_of(bb[k as int].0, cut as int) == texts(out@)[i]);
                        }
                    }
                }
            } else {
                proof {
                    assert forall|i: int| 0 <= i < out@.len() implies heads_before(bb, k as int, cut + 1, #[trigger] texts(out@)[i]) by {
                        assert(heads_before(bb, k as int, cut as int, texts(out@)[i]));
                    }
                }
            }
            proof {
                assert forall|p: Seq<char>| heads_before(bb, k as int, cut + 1, p) implies texts(out@).contains(p) by {
                    let (k2, c2) = choose|k2: int, c2: int|
                        0 <= k2 < bb.len() && 1 <= c2 < chord_count(bb[k2].0) && (k2 < k || (k2 == k && c2 < cut + 1))
                            && p == #[trigger] head_of(bb[k2].0, c2);
                    if k2 < k || c2 < cut {
                        assert(heads_before(bb, k as int, cut as int, p));
                        assert(texts(prev).contains(p));
                        let i = choose|i: int| 0 <= i < texts(prev).len() && texts(prev)[i] == p;
                        assert(texts(out@)[i] == texts(prev)[i]);
                    } else {
                        assert(p == h);
                    }
                }
            }
            cut = cut + 1;
        }
        proof {
            assert forall|i: int| 0 <= i < out@.len() implies heads_before(bb, k + 1, 0, #[trigger] texts(out@)[i]) by {
                assert(heads_before(bb, k as int, cut as int, texts(out@)[i]));
                let (k2, c2) = choose|k2: int, c2: int|
                    0 <= k2 < bb.len() && 1 <= c2 < chord_count(bb[k2].0) && (k2 < k || (k2 == k && c2 < cut))
                        && texts(out@)[i] == #[trigger] head_of(bb[k2].0, c2);
                assert(k2 < k + 1);
            }
            assert forall|p: Seq<char>| heads_before(bb, k + 1, 0, p) implies texts(out@).contains(p) by {
                let (k2, c2) = choose|k2: int, c2: int|
                    0 <= k2 < bb.len() && 1 <= c2 < chord_count(bb[k2].0) && (k2 < k + 1 || (k2 == k + 1 && c2 < 0))
                        && p == #[trigger] head_of(bb[k2].0, c2);
                if k2 < k {
                    assert(heads_before(bb, k as int, 0, p));
                } else {
                    assert(chord_count(bb[k as int].0) == chords@.len());
                    assert(heads_before(bb, k as int, cut as int, p));
                }
            }
        }
        k = k + 1;
    }
    proof {
        assert forall|p: Seq<char>| #[trigger] texts(out@).to_set().contains(p) == prefix_set(bb).contains(p) by {
            if texts(out@).contains(p) {
                let i = choose|i: int| 0 <= i < texts(out@).len() && texts(out@)[i] == p;
                assert(heads_before(bb, k as int, 0, texts(out@)[i]));
            }
            if prefix_set(bb).contains(p) {
                assert(heads_before(bb, k as int, 0, p));
            }
        }
        assert(texts(out@).to_set() =~= prefix_set(bb));
    }
    out
}

/// Whether a file's entries are a map's: in the order of their names, none
/// twice, which is what `Keymap::build` asks of them.
pub fn in_name_order(overrides: &Vec<(String, Vec<String>)>) -> (r: bool)
    ensures
        r == names_in_order(file_view(overrides@)),
{
    let ghost f = file_view(overrides@);
    let mut i: usize = 0;
    while i < overrides.len()
        invariant
            f == file_view(overrides@),
            i <= overrides@.len(),
            forall|a: int, b: int| 0 <= a < b < overrides@.len() && a < i ==> text_before(#[trigger] f[a].0, #[trigger] f[b].0),
        decreases overrides@.len() - i,
    {
        let mut j: usize = i + 1;
        while j < overrides.len()
            invariant
                f == file_view(overrides@),
                i < overrides@.len(),
                i + 1 <= j <= overrides@.len(),
                forall|a: int, b: int| 0 <= a < b < overrides@.len() && a < i ==> text_before(#[trigger] f[a].0, #[trigger] f[b].0),
                forall|b: int| i < b < j ==> text_before(f[i as int].0, #[trigger] f[b].0),
            decreases overrides@.len() - j,
        {
            if !comes_before(overrides[i].0.as_str(), overrides[j].0.as_str()) {
                proof { assert(!text_before(f[i as int].0, f[j as int].0)); }
                return false;
            }
            j = j + 1;
        }
        i = i + 1;
    }
    true
}

impl Keymap {
    /// What the app ships with, on this kind of machine.
    pub fn shipped(mac: bool) -> (r: Keymap)
        ensures
            r.settled() == built(Seq::empty(), mac),
            texts(r.prefixes@).to_set() == prefix_set(r.settled().bindings),
            texts(r.prefixes@).no_duplicates(),
            r.mac == mac,
    {
        let none: Vec<(String, Vec<String>)> = Vec::new();
        proof { assert(file_view(none@) =~= Seq::<(Seq<char>, Seq<Seq<char>>)>::empty()); }
        Keymap::build(mac, &none)
    }

    /// The defaults with a `keys.toml` over the top, its entries a map from
    /// action name to keys: in the order of the names, none twice.
    ///
    /// Naming an action in the file *replaces* its keys rather than adding
    /// to them, and naming it with an empty list unbinds it. Anything the
    /// file does not mention keeps what it shipped with. A chord claimed
    /// twice goes to the action the file names, and a binding that begins
    /// with another bound one is dropped; each is told as a problem.
    pub fn build(mac: bool, overrides: &Vec<(String, Vec<String>)>) -> (r: Keymap)
        requires
            names_in_order(file_view(overrides@)),
        ensures
            r.settled() == built(file_view(overrides@), mac),
            texts(r.prefixes@).to_set() == prefix_set(r.settled().bindings),
            texts(r.prefixes@).no_duplicates(),
            r.mac == mac,
    {
        let mut problems = unknown(overrides);
        let mut by_action = asked_lists(overrides, mac, &mut problems);
        let mut by_binding: Vec<(String, Action)> = Vec::new();
        proof {
            assert(bound_view(by_binding@) =~= Seq::<(Seq<char>, Action)>::empty());
        }
        settle_all(&mut by_binding, &mut by_action, &mut problems, overrides, mac);
        prune_all(&mut by_binding, &mut by_action, &mut problems, mac);
        let prefixes = prefixes_from(&by_binding);
        Keymap { by_binding, by_action, prefixes, problems, mac }
    }

    pub fn mac(&self) -> (r: bool)
        ensures
            r == self.mac,
    {
        self.mac
    }
}

/* --------------------------------------------------------- a keystroke */

/// What a keystroke came to, as the contracts speak of it.
pub enum Answer {
    Act(Action),
    Wait(Seq<char>),
    Nothing,
}

pub open spec fn answer_of(p: Press) -> Answer {
    match p {
        Press::Act(a) => Answer::Act(a),
        Press::Wait(s) => Answer::Wait(s@),
        Press::Nothing => Answer::Nothing,
    }
}

/// The action bound to a binding, if any.
pub open spec fn bound_to(bb: Seq<(Seq<char>, Action)>, b: Seq<char>) -> Option<Action> {
    match first_key(bb, b) {
        Some(k) => Some(bb[k].1),
        None => None,
    }
}

/// A chord pressed while `pending` waits: the two together, if anything
/// waits.
pub open spec fn continued_by(pending: Seq<char>, chord: Seq<char>) -> Seq<char> {
    if pending.len() == 0 { Seq::empty() } else { pending + seq![' '] + chord }
}

/// What the spellings of one keystroke come to, tried best first: a binding
/// that continues what waits, then the chord on its own; failing both, the
/// start of a longer binding; failing everything, nothing.
pub open spec fn answer(bb: Seq<(Seq<char>, Action)>, px: Set<Seq<char>>, chords: Seq<Seq<char>>, pending: Seq<char>) -> Answer
    decreases chords.len(),
{
    if chords.len() == 0 {
        Answer::Nothing
    } else {
        let chord = chords[0];
        let continued = continued_by(pending, chord);
        let binding = if continued.len() > 0 && lefts(bb).contains(continued) { continued } else { chord };
        if let Some(a) = bound_to(bb, binding) {
            Answer::Act(a)
        } else {
            let prefix = if continued.len() > 0 && px.contains(continued) { continued } else { chord };
            if px.contains(prefix) { Answer::Wait(prefix) } else { answer(bb, px, chords.drop_first(), pending) }
        }
    }
}

fn has_prefix(prefixes: &Vec<String>, p: &String) -> (r: bool)
    ensures
        r == texts(prefixes@).to_set().contains(p@),
{
    has_text(prefixes, p)
}

impl Keymap {
    /// The action a chord asks for, if any.
    pub fn action_for(&self, binding: &str) -> (r: Option<Action>)
        ensures
            r == bound_to(bound_view(self.by_binding@), binding@),
    {
        match find_binding(&self.by_binding, binding) {
            Some(k) => {
                proof { lemma_first_unique(bound_view(self.by_binding@), binding@, k as int); }
                Some(self.by_binding[k].1)
            },
            None => {
                proof { lemma_first_none(bound_view(self.by_binding@), binding@); }
                None
            },
        }
    }

    /// What a keystroke means, given what was pressed before it. A chord
    /// that does not continue what waits is not a mistake: the pending
    /// prefix is dropped and the chord is tried on its own.
    pub fn resolve(&self, chords: &Vec<String>, pending: &str) -> (r: Press)
        ensures
            answer_of(r) == answer(bound_view(self.by_binding@), texts(self.prefixes@).to_set(), texts(chords@), pending@),
    {
        let ghost bb = bound_view(self.by_binding@);
        let ghost px = texts(self.prefixes@).to_set();
        let ghost cs = texts(chords@);
        let mut i: usize = 0;
        proof { assert(cs.skip(0) =~= cs); }
        while i < chords.len()
            invariant
                bb == bound_view(self.by_binding@),
                px == texts(self.prefixes@).to_set(),
                cs == texts(chords@),
                i <= chords@.len(),
                answer(bb, px, cs, pending@) == answer(bb, px, cs.skip(i as int), pending@),
            decreases chords@.len() - i,
        {
            let chord = &chords[i];
            let ghost rest = cs.skip(i as int);
            proof {
                assert(rest[0] == chord@);
                assert(rest.drop_first() =~= cs.skip(i + 1));
            }
            let waiting = chars_of(pending).len() > 0;
            let continued: String = if !waiting {
                String::new()
            } else {
                let mut c = string_of(chars_of(pending).as_slice());
                push_str(&mut c, " ");
                push_str(&mut c, chord.as_str());
                c
            };
            proof {
                crate::keymap::strlits_of_signs();
                assert(pending@.len() == 0 ==> continued@ =~= Seq::<char>::empty());
                assert(continued@ =~= continued_by(pending@, chord@));
                assert(waiting == (continued@.len() > 0));
            }
            let continued_bound = waiting && self.action_for(continued.as_str()).is_some();
            proof {
                if continued@.len() > 0 {
                    if lefts(bb).contains(continued@) {
                        lemma_first_some(bb, continued@);
                    } else {
                        lemma_first_none(bb, continued@);
                    }
                }
            }
            let binding: &String = if continued_bound { &continued } else { chord };
            match self.action_for(binding.as_str()) {
                Some(action) => {
                    return Press::Act(action);
                },
                None => {},
            }
            let continued_waits = waiting && has_prefix(&self.prefixes, &continued);
            let prefix: &String = if continued_waits { &continued } else { chord };
            if has_prefix(&self.prefixes, prefix) {
                return Press::Wait(prefix.clone());
            }
            i = i + 1;
        }
        Press::Nothing
    }

    /// The same, straight off a keystroke: its spellings, then what they
    /// come to. A keystroke with no spelling at all, a bare Shift, is not a
    /// keystroke, and what waits keeps waiting.
    pub fn press(&self, key: &str, modifier_key: bool, code: &str, modifiers: crate::keymap::Modifiers, pending: &str) -> (r: Press)
        ensures
            ({
                let chords = crate::keymap::chords_for(key@, modifier_key, code@, modifiers, self.mac);
                answer_of(r) == if chords.len() == 0 {
                    Answer::Wait(pending@)
                } else {
                    answer(bound_view(self.by_binding@), texts(self.prefixes@).to_set(), chords, pending@)
                }
            }),
    {
        let chords = crate::keymap::chords_of(key, modifier_key, code, modifiers, self.mac);
        if chords.len() == 0 {
            return Press::Wait(string_of(chars_of(pending).as_slice()));
        }
        self.resolve(&chords, pending)
    }

    /// One line for a reader who would otherwise find out by pressing a key
    /// that does nothing: the first problem, and how many more there are.
    pub fn complaint(&self) -> (r: Option<String>)
        ensures
            match r {
                None => self.problems@.len() == 0,
                Some(line) => self.problems@.len() > 0 && line@ == complaint_of(texts(self.problems@)),
            },
    {
        let n = self.problems.len();
        if n == 0 {
            return None;
        }
        let mut line = string_of(chars_of(crate::keys::FILE).as_slice());
        push_str(&mut line, ": ");
        push_str(&mut line, self.problems[0].as_str());
        if n > 1 {
            push_str(&mut line, " And ");
            let more = crate::text::decimal_of(n - 1);
            push_str(&mut line, more.as_str());
            push_str(&mut line, " more.");
        }
        Some(line)
    }
}

/// The one line said of a non-empty list of problems.
pub open spec fn complaint_of(problems: Seq<Seq<char>>) -> Seq<char> {
    let first = crate::keys::FILE@ + ": "@ + problems[0];
    if problems.len() == 1 {
        first
    } else {
        first + " And "@ + crate::text::decimal((problems.len() - 1) as nat) + " more."@
    }
}

/* ---------------------------------------------------------------- laws */

proof fn lemma_first_none_means_absent<K, V>(s: Seq<(K, V)>, key: K)
    requires
        first_key(s, key) is None,
    ensures
        !lefts(s).contains(key),
{
    if lefts(s).contains(key) {
        lemma_first_some(s, key);
    }
}

proof fn lemma_settle_one_distinct(st: Settled, a: Action, b: Seq<char>, ov: Seq<(Seq<char>, Seq<Seq<char>>)>, mac: bool)
    requires
        keys_distinct(st.bindings),
    ensures
        keys_distinct(settle_one(st, a, b, ov, mac).bindings),
{
    match first_key(st.bindings, b) {
        None => {
            lemma_first_none_means_absent(st.bindings, b);
            let nb = st.bindings.push((b, a));
            assert forall|i: int, j: int| 0 <= i < j < nb.len() implies nb[i].0 != nb[j].0 by {
                if j == st.bindings.len() {
                    assert(lefts(st.bindings)[i] == nb[i].0);
                }
            }
        },
        Some(k) => {
            let x = choose|k: int| is_first(st.bindings, b, k);
            assert(is_first(st.bindings, b, x));
        },
    }
}

proof fn lemma_settle_list_distinct(st: Settled, a: Action, bs: Seq<Seq<char>>, ov: Seq<(Seq<char>, Seq<Seq<char>>)>, mac: bool)
    requires
        keys_distinct(st.bindings),
    ensures
        keys_distinct(settle_list(st, a, bs, ov, mac).bindings),
    decreases bs.len(),
{
    if bs.len() > 0 {
        lemma_settle_list_distinct(st, a, bs.drop_last(), ov, mac);
        lemma_settle_one_distinct(settle_list(st, a, bs.drop_last(), ov, mac), a, bs.last(), ov, mac);
    }
}

proof fn lemma_settle_distinct(st: Settled, acts: Seq<Action>, ov: Seq<(Seq<char>, Seq<Seq<char>>)>, mac: bool)
    requires
        keys_distinct(st.bindings),
    ensures
        keys_distinct(settle(st, acts, ov, mac).bindings),
    decreases acts.len(),
{
    if acts.len() > 0 {
        lemma_settle_distinct(st, acts.drop_last(), ov, mac);
        let s1 = settle(st, acts.drop_last(), ov, mac);
        lemma_settle_list_distinct(s1, acts.last(), list_of(s1.lists, acts.last()), ov, mac);
    }
}

/// Every key of the second list of pairs is a key of the first.
pub open spec fn keys_within<K, V>(small: Seq<(K, V)>, big: Seq<(K, V)>) -> bool {
    forall|i: int| 0 <= i < small.len() ==> #[trigger] lefts(big).contains(small[i].0)
}

proof fn lemma_first_cut_none(bb: Seq<(Seq<char>, Action)>, b: Seq<char>, c: int)
    requires
        first_cut(bb, b, c) is None,
        c >= 1,
    ensures
        forall|cut: int| c <= cut < chord_count(b) ==> !lefts(bb).contains(#[trigger] head_of(b, cut)),
    decreases chord_count(b) - c,
{
    if c < chord_count(b) {
        lemma_first_cut_none(bb, b, c + 1);
    }
}

/// What pruning keeps true, the bindings looked at so far being `done`:
/// none of them that is still bound begins with another bound one.
pub open spec fn pruned_so_far(st: Settled, done: Seq<Seq<char>>, all: Seq<Seq<char>>) -> bool {
    &&& keys_distinct(st.bindings)
    &&& forall|i: int| 0 <= i < st.bindings.len() ==> #[trigger] all.contains(st.bindings[i].0)
    &&& forall|i: int, cut: int|
        0 <= i < st.bindings.len() && done.contains(st.bindings[i].0) && 1 <= cut < chord_count(st.bindings[i].0)
            ==> !lefts(st.bindings).contains(#[trigger] head_of(st.bindings[i].0, cut))
}

proof fn lemma_prune_one_keeps(st: Settled, b: Seq<char>, done: Seq<Seq<char>>, all: Seq<Seq<char>>, mac: bool)
    requires
        pruned_so_far(st, done, all),
    ensures
        pruned_so_far(prune_one(st, b, mac), done.push(b), all),
{
    let bb = st.bindings;
    let nst = prune_one(st, b, mac);
    match first_cut(bb, b, 1) {
        None => {
            lemma_first_cut_none(bb, b, 1);
            assert forall|i: int, cut: int|
                0 <= i < bb.len() && done.push(b).contains(bb[i].0) && 1 <= cut < chord_count(bb[i].0)
                    implies !lefts(bb).contains(#[trigger] head_of(bb[i].0, cut)) by {
                if !done.contains(bb[i].0) {
                    let w = choose|w: int| 0 <= w < done.push(b).len() && done.push(b)[w] == bb[i].0;
                    if w < done.len() {
                        assert(done[w] == bb[i].0);
                    }
                    assert(bb[i].0 == b);
                }
            }
        },
        Some(cut0) => {
            match first_key(bb, b) {
                None => {
                    lemma_first_none_means_absent(bb, b);
                    assert forall|i: int, cut: int|
                        0 <= i < bb.len() && done.push(b).contains(bb[i].0) && 1 <= cut < chord_count(bb[i].0)
                            implies !lefts(bb).contains(#[trigger] head_of(bb[i].0, cut)) by {
                        if !done.contains(bb[i].0) {
                            let w = choose|w: int| 0 <= w < done.push(b).len() && done.push(b)[w] == bb[i].0;
                            if w < done.len() {
                                assert(done[w] == bb[i].0);
                            }
                            assert(lefts(bb)[i] == b);
                        }
                    }
                },
                Some(k) => {
                    let x = choose|k: int| is_first(bb, b, k);
                    assert(is_first(bb, b, x));
                    let nb = bb.remove(k);
                    assert(nst.bindings == nb);
                    assert forall|i: int, j: int| 0 <= i < j < nb.len() implies nb[i].0 != nb[j].0 by {
                        let oi = if i < k { i } else { i + 1 };
                        let oj = if j < k { j } else { j + 1 };
                        assert(nb[i] == bb[oi]);
                        assert(nb[j] == bb[oj]);
                    }
                    assert forall|i: int| 0 <= i < nb.len() implies #[trigger] all.contains(nb[i].0) by {
                        let oi = if i < k { i } else { i + 1 };
                        assert(nb[i] == bb[oi]);
                    }
                    assert forall|i: int, cut: int|
                        0 <= i < nb.len() && done.push(b).contains(nb[i].0) && 1 <= cut < chord_count(nb[i].0)
                            implies !lefts(nb).contains(#[trigger] head_of(nb[i].0, cut)) by {
                        let oi = if i < k { i } else { i + 1 };
                        assert(nb[i] == bb[oi]);
                        assert(bb[oi].0 != b);
                        if !done.contains(nb[i].0) {
                            let w = choose|w: int| 0 <= w < done.push(b).len() && done.push(b)[w] == nb[i].0;
                            if w < done.len() {
                                assert(done[w] == nb[i].0);
                            }
                        }
                        assert(!lefts(bb).contains(head_of(bb[oi].0, cut)));
                        if lefts(nb).contains(head_of(nb[i].0, cut)) {
                            let y = choose|y: int| 0 <= y < lefts(nb).len() && lefts(nb)[y] == head_of(nb[i].0, cut);
                            let oy = if y < k { y } else { y + 1 };
                            assert(nb[y] == bb[oy]);
                            assert(lefts(bb)[oy] == head_of(nb[i].0, cut));
                        }
                    }
                },
            }
        },
    }
}

proof fn lemma_prune_keeps(st: Settled, bs: Seq<Seq<char>>, done: Seq<Seq<char>>, all: Seq<Seq<char>>, mac: bool)
    requires
        pruned_so_far(st, done, all),
    ensures
        pruned_so_far(prune(st, bs, mac), done + bs, all),
    decreases bs.len(),
{
    if bs.len() > 0 {
        lemma_prune_keeps(st, bs.drop_last(), done, all, mac);
        lemma_prune_one_keeps(prune(st, bs.drop_last(), mac), bs.last(), done + bs.drop_last(), all, mac);
        assert((done + bs.drop_last()).push(bs.last()) =~= done + bs);
    }
}

/* ------------------------------------------- the lists agree with the map */

/// Where an action stands in the table.
pub open spec fn place(a: Action) -> int {
    match a {
        Action::Open => 0,
        Action::NewWindow => 1,
        Action::NewTab => 2,
        Action::Print => 3,
        Action::Settings => 4,
        Action::Help => 5,
        Action::CloseWindow => 6,
        Action::GoToTab => 7,
        Action::Quit => 8,
        Action::Find => 9,
        Action::FindNext => 10,
        Action::FindPrevious => 11,
        Action::SelectPage => 12,
        Action::CopyQuote => 13,
        Action::Mark => 14,
        Action::Markup => 15,
        Action::Dismiss => 16,
        Action::NextPage => 17,
        Action::PreviousPage => 18,
        Action::ScrollDown => 19,
        Action::ScrollUp => 20,
        Action::HalfScreenDown => 21,
        Action::HalfScreenUp => 22,
        Action::ScreenDown => 23,
        Action::ScreenUp => 24,
        Action::FirstPage => 25,
        Action::LastPage => 26,
        Action::GoToPage => 27,
        Action::Back => 28,
        Action::Forward => 29,
        Action::ZoomIn => 30,
        Action::ZoomOut => 31,
        Action::FitWidth => 32,
        Action::ActualSize => 33,
        Action::FitPage => 34,
        Action::RotateRight => 35,
        Action::RotateLeft => 36,
        Action::Dark => 37,
        Action::Sidebar => 38,
        Action::Toolbar => 39,
        Action::Fullscreen => 40,
        Action::Present => 41,
        Action::NextTheme => 42,
        Action::Spread => 43,
        Action::Copy => 44,
    }
}

/// No action is in the table twice.
proof fn lemma_actions_distinct()
    ensures
        all_actions().no_duplicates(),
        all_actions().len() == 45,
        forall|i: int| 0 <= i < all_actions().len() ==> place(#[trigger] all_actions()[i]) == i,
{
    assert(place(all_actions()[0]) == 0);
    assert(place(all_actions()[1]) == 1);
    assert(place(all_actions()[2]) == 2);
    assert(place(all_actions()[3]) == 3);
    assert(place(all_actions()[4]) == 4);
    assert(place(all_actions()[5]) == 5);
    assert(place(all_actions()[6]) == 6);
    assert(place(all_actions()[7]) == 7);
    assert(place(all_actions()[8]) == 8);
    assert(place(all_actions()[9]) == 9);
    assert(place(all_actions()[10]) == 10);
    assert(place(all_actions()[11]) == 11);
    assert(place(all_actions()[12]) == 12);
    assert(place(all_actions()[13]) == 13);
    assert(place(all_actions()[14]) == 14);
    assert(place(all_actions()[15]) == 15);
    assert(place(all_actions()[16]) == 16);
    assert(place(all_actions()[17]) == 17);
    assert(place(all_actions()[18]) == 18);
    assert(place(all_actions()[19]) == 19);
    assert(place(all_actions()[20]) == 20);
    assert(place(all_actions()[21]) == 21);
    assert(place(all_actions()[22]) == 22);
    assert(place(all_actions()[23]) == 23);
    assert(place(all_actions()[24]) == 24);
    assert(place(all_actions()[25]) == 25);
    assert(place(all_actions()[26]) == 26);
    assert(place(all_actions()[27]) == 27);
    assert(place(all_actions()[28]) == 28);
    assert(place(all_actions()[29]) == 29);
    assert(place(all_actions()[30]) == 30);
    assert(place(all_actions()[31]) == 31);
    assert(place(all_actions()[32]) == 32);
    assert(place(all_actions()[33]) == 33);
    assert(place(all_actions()[34]) == 34);
    assert(place(all_actions()[35]) == 35);
    assert(place(all_actions()[36]) == 36);
    assert(place(all_actions()[37]) == 37);
    assert(place(all_actions()[38]) == 38);
    assert(place(all_actions()[39]) == 39);
    assert(place(all_actions()[40]) == 40);
    assert(place(all_actions()[41]) == 41);
    assert(place(all_actions()[42]) == 42);
    assert(place(all_actions()[43]) == 43);
    assert(place(all_actions()[44]) == 44);
}

proof fn lemma_removed_contains(s: Seq<Seq<char>>, b: Seq<char>, c: Seq<char>)
    ensures
        removed(s, b).contains(c) <==> (s.contains(c) && c != b),
    decreases s.len(),
{
    if s.len() > 0 {
        lemma_removed_contains(s.drop_last(), b, c);
        let r = removed(s.drop_last(), b);
        if s.contains(c) && c != b {
            let i = choose|i: int| 0 <= i < s.len() && s[i] == c;
            if i < s.len() - 1 {
                assert(s.drop_last()[i] == c);
            }
        }
        if r.push(s.last()).contains(c) {
            let i = choose|i: int| 0 <= i < r.push(s.last()).len() && r.push(s.last())[i] == c;
            if i < r.len() {
                assert(r[i] == c);
            }
        }
        if s.drop_last().contains(c) {
            let i = choose|i: int| 0 <= i < s.drop_last().len() && s.drop_last()[i] == c;
            assert(s[i] == c);
        }
        if r.contains(c) {
            let i = choose|i: int| 0 <= i < r.len() && r[i] == c;
            assert(r.push(s.last())[i] == c);
        }
        if s.last() == c {
            assert(r.push(s.last())[r.len() as int] == c);
        }
    }
}

proof fn lemma_first_key_same_lefts<K, V>(s: Seq<(K, V)>, t: Seq<(K, V)>, key: K)
    requires
        s.len() == t.len(),
        forall|i: int| 0 <= i < s.len() ==> s[i].0 == t[i].0,
    ensures
        first_key(s, key) == first_key(t, key),
{
    if exists|k: int| is_first(s, key, k) {
        let k = choose|k: int| is_first(s, key, k);
        assert(is_first(t, key, k));
        lemma_first_unique(s, key, k);
        lemma_first_unique(t, key, k);
    } else if exists|k: int| is_first(t, key, k) {
        let k = choose|k: int| is_first(t, key, k);
        assert(is_first(s, key, k));
    }
}

/// Taking a binding off one action's list leaves every other list as it was.
proof fn lemma_list_of_without(lists: Seq<(Action, Seq<Seq<char>>)>, x: Action, b: Seq<char>, y: Action)
    ensures
        list_of(without(lists, x, b), y) == if y == x { removed(list_of(lists, x), b) } else { list_of(lists, y) },
{
    match first_key(lists, x) {
        Some(k) => {
            let c = choose|k: int| is_first(lists, x, k);
            assert(is_first(lists, x, c));
            let n = lists.update(k, (lists[k].0, removed(lists[k].1, b)));
            lemma_first_key_same_lefts(lists, n, y);
            if y != x {
                match first_key(lists, y) {
                    Some(j) => {
                        let d = choose|j: int| is_first(lists, y, j);
                        assert(is_first(lists, y, d));
                    },
                    None => {},
                }
            }
        },
        None => {
            assert(removed(Seq::<Seq<char>>::empty(), b) =~= Seq::<Seq<char>>::empty());
        },
    }
}

proof fn lemma_read_keys_distinct(given: Seq<Seq<char>>, a: Action, mac: bool)
    ensures
        read_keys(given, a, mac).0.no_duplicates(),
    decreases given.len(),
{
    if given.len() > 0 {
        lemma_read_keys_distinct(given.drop_last(), a, mac);
    }
}

proof fn lemma_distinct_of_distinct(s: Seq<Seq<char>>)
    ensures
        distinct_of(s).no_duplicates(),
    decreases s.len(),
{
    if s.len() > 0 {
        lemma_distinct_of_distinct(s.drop_last());
    }
}

/// Each action's list, before any two actions are weighed, is its asked
/// keys, none twice; a name the table does not have has none.
proof fn lemma_asked_lists(ov: Seq<(Seq<char>, Seq<Seq<char>>)>, mac: bool, a: Action)
    ensures
        list_of(asked(ov, all_actions(), mac), a) == asked_keys(ov, a, mac),
        asked_keys(ov, a, mac).no_duplicates(),
{
    lemma_actions_distinct();
    let l = asked(ov, all_actions(), mac);
    let k = place(a);
    assert(0 <= k < all_actions().len());
    assert(all_actions()[k] == a) by {
        let w = all_actions()[k];
        assert(place(w) == k);
    }
    assert(is_first(l, a, k)) by {
        assert forall|j: int| 0 <= j < k implies l[j].0 != a by {
            assert(place(all_actions()[j]) == j);
        }
    }
    lemma_first_unique(l, a, k);
    match override_for(ov, name_of(a)) {
        Some(given) => lemma_read_keys_distinct(given, a, mac),
        None => lemma_distinct_of_distinct(defaults_of(a, mac)),
    }
}


/// The bindings and the lists agree for the actions `done`, whose lists
/// have been weighed; every other list is as it was in `first`.
pub open spec fn agree_for(st: Settled, done: Seq<Action>, first: Settled) -> bool {
    &&& keys_distinct(st.bindings)
    &&& forall|b: Seq<char>, x: Action| #[trigger] st.bindings.contains((b, x)) ==> done.contains(x) && list_of(st.lists, x).contains(b)
    &&& forall|b: Seq<char>, x: Action| done.contains(x) && #[trigger] list_of(st.lists, x).contains(b) ==> st.bindings.contains((b, x))
    &&& forall|x: Action| !done.contains(x) ==> #[trigger] list_of(st.lists, x) == list_of(first.lists, x)
}

/// The same, part way through weighing action `a`'s list `bs`: its first
/// `j` bindings weighed, the rest still on its list.
pub open spec fn agree_during(st: Settled, done: Seq<Action>, a: Action, bs: Seq<Seq<char>>, j: int, first: Settled) -> bool {
    &&& keys_distinct(st.bindings)
    &&& !done.contains(a)
    &&& forall|b: Seq<char>, x: Action| #[trigger] st.bindings.contains((b, x)) ==>
        (done.contains(x) || x == a) && list_of(st.lists, x).contains(b) && (x == a ==> bs.take(j).contains(b))
    &&& forall|b: Seq<char>, x: Action| done.contains(x) && #[trigger] list_of(st.lists, x).contains(b) ==> st.bindings.contains((b, x))
    &&& forall|b: Seq<char>| bs.take(j).contains(b) && #[trigger] list_of(st.lists, a).contains(b) ==> st.bindings.contains((b, a))
    &&& forall|x: Action| !done.contains(x) && x != a ==> #[trigger] list_of(st.lists, x) == list_of(first.lists, x)
    &&& forall|i: int| j <= i < bs.len() ==> list_of(st.lists, a).contains(#[trigger] bs[i])
    &&& forall|b: Seq<char>| #[trigger] list_of(st.lists, a).contains(b) ==> bs.contains(b)
}

proof fn lemma_contains_push<A>(s: Seq<A>, v: A, w: A)
    ensures
        s.push(v).contains(w) <==> (s.contains(w) || w == v),
{
    if s.push(v).contains(w) {
        let i = choose|i: int| 0 <= i < s.push(v).len() && s.push(v)[i] == w;
        if i < s.len() {
            assert(s[i] == w);
        }
    }
    if s.contains(w) {
        let i = choose|i: int| 0 <= i < s.len() && s[i] == w;
        assert(s.push(v)[i] == w);
    }
    if w == v {
        assert(s.push(v)[s.len() as int] == w);
    }
}

proof fn lemma_take_push<A>(s: Seq<A>, j: int)
    requires
        0 <= j < s.len(),
    ensures
        s.take(j + 1) == s.take(j).push(s[j]),
{
    assert(s.take(j + 1) =~= s.take(j).push(s[j]));
}

/// Weighing one more of `a`'s bindings keeps the bindings and the lists in
/// agreement.
proof fn lemma_settle_one_agree(st: Settled, done: Seq<Action>, a: Action, bs: Seq<Seq<char>>, j: int, first: Settled,
    ov: Seq<(Seq<char>, Seq<Seq<char>>)>, mac: bool)
    requires
        agree_during(st, done, a, bs, j, first),
        bs.no_duplicates(),
        0 <= j < bs.len(),
    ensures
        agree_during(settle_one(st, a, bs[j], ov, mac), done, a, bs, j + 1, first),
{
    let b = bs[j];
    let bb = st.bindings;
    let nst = settle_one(st, a, b, ov, mac);
    lemma_settle_one_distinct(st, a, b, ov, mac);
    lemma_take_push(bs, j);
    assert(list_of(st.lists, a).contains(bs[j]));
    assert(!bs.take(j).contains(b)) by {
        if bs.take(j).contains(b) {
            let i = choose|i: int| 0 <= i < bs.take(j).len() && bs.take(j)[i] == b;
            assert(bs[i] == bs[j]);
        }
    }
    assert forall|c: Seq<char>| #[trigger] bs.take(j + 1).contains(c) implies bs.take(j).contains(c) || c == b by {
        lemma_contains_push(bs.take(j), b, c);
    }
    assert forall|c: Seq<char>| bs.take(j).contains(c) implies #[trigger] bs.take(j + 1).contains(c) by {
        lemma_contains_push(bs.take(j), b, c);
    }
    assert(bs.take(j + 1).contains(b)) by {
        lemma_contains_push(bs.take(j), b, b);
    }
    match first_key(bb, b) {
        None => {
            lemma_first_none_means_absent(bb, b);
            let nb = bb.push((b, a));
            assert(nst.bindings == nb && nst.lists == st.lists);
            assert forall|c: Seq<char>, x: Action| #[trigger] nb.contains((c, x)) implies
                (done.contains(x) || x == a) && list_of(nst.lists, x).contains(c) && (x == a ==> bs.take(j + 1).contains(c)) by {
                lemma_contains_push(bb, (b, a), (c, x));
                if bb.contains((c, x)) {
                    assert(st.bindings.contains((c, x)));
                }
            }
            assert forall|c: Seq<char>, x: Action| done.contains(x) && #[trigger] list_of(nst.lists, x).contains(c) implies
                nb.contains((c, x)) by {
                lemma_contains_push(bb, (b, a), (c, x));
            }
            assert forall|c: Seq<char>| bs.take(j + 1).contains(c) && #[trigger] list_of(nst.lists, a).contains(c) implies
                nb.contains((c, a)) by {
                lemma_contains_push(bb, (b, a), (c, a));
            }
        },
        Some(k) => {
            let w = choose|k: int| is_first(bb, b, k);
            assert(is_first(bb, b, w));
            let taken = bb[k].1;
            assert(bb.contains((b, taken))) by { assert(bb[k] == (b, taken)); }
            assert(taken != a);
            assert(done.contains(taken));
            assert(list_of(st.lists, taken).contains(b));
            let loser = if in_file(ov, a) && !in_file(ov, taken) { taken } else { a };
            assert forall|y: Action| #[trigger] list_of(nst.lists, y) == (if y == loser { removed(list_of(st.lists, loser), b) } else {
                list_of(st.lists, y) }) by {
                lemma_list_of_without(st.lists, loser, b, y);
            }
            if loser == taken {
                let nb = bb.update(k, (b, a));
                assert(nst.bindings == nb);
                assert forall|c: Seq<char>, x: Action| #[trigger] nb.contains((c, x)) implies
                    (done.contains(x) || x == a) && list_of(nst.lists, x).contains(c) && (x == a ==> bs.take(j + 1).contains(c)) by {
                    let i = choose|i: int| 0 <= i < nb.len() && nb[i] == (c, x);
                    if i != k {
                        assert(bb[i] == (c, x));
                        assert(bb.contains((c, x)));
                        assert(c != b);
                        lemma_removed_contains(list_of(st.lists, taken), b, c);
                    }
                }
                assert forall|c: Seq<char>, x: Action| done.contains(x) && #[trigger] list_of(nst.lists, x).contains(c) implies
                    nb.contains((c, x)) by {
                    if x == taken {
                        lemma_removed_contains(list_of(st.lists, taken), b, c);
                    }
                    assert(bb.contains((c, x)));
                    let i = choose|i: int| 0 <= i < bb.len() && bb[i] == (c, x);
                    assert(i != k);
                    assert(nb[i] == (c, x));
                }
                assert forall|c: Seq<char>| bs.take(j + 1).contains(c) && #[trigger] list_of(nst.lists, a).contains(c) implies
                    nb.contains((c, a)) by {
                    if c == b {
                        assert(nb[k] == (c, a));
                    } else {
                        assert(bb.contains((c, a)));
                        let i = choose|i: int| 0 <= i < bb.len() && bb[i] == (c, a);
                        assert(i != k);
                        assert(nb[i] == (c, a));
                    }
                }
            } else {
                assert(nst.bindings == bb);
                assert forall|c: Seq<char>, x: Action| #[trigger] bb.contains((c, x)) implies
                    (done.contains(x) || x == a) && list_of(nst.lists, x).contains(c) && (x == a ==> bs.take(j + 1).contains(c)) by {
                    assert(st.bindings.contains((c, x)));
                    if x == a {
                        lemma_removed_contains(list_of(st.lists, a), b, c);
                    }
                }
                assert forall|c: Seq<char>| bs.take(j + 1).contains(c) && #[trigger] list_of(nst.lists, a).contains(c) implies
                    bb.contains((c, a)) by {
                    lemma_removed_contains(list_of(st.lists, a), b, c);
                }
                assert forall|i: int| j + 1 <= i < bs.len() implies list_of(nst.lists, a).contains(#[trigger] bs[i]) by {
                    assert(list_of(st.lists, a).contains(bs[i]));
                    lemma_removed_contains(list_of(st.lists, a), b, bs[i]);
                }
                assert forall|c: Seq<char>| #[trigger] list_of(nst.lists, a).contains(c) implies bs.contains(c) by {
                    lemma_removed_contains(list_of(st.lists, a), b, c);
                }
            }
        },
    }
}

proof fn lemma_settle_list_agree(st: Settled, done: Seq<Action>, a: Action, bs: Seq<Seq<char>>, j: int, first: Settled,
    ov: Seq<(Seq<char>, Seq<Seq<char>>)>, mac: bool)
    requires
        agree_during(st, done, a, bs, 0, first),
        bs.no_duplicates(),
        0 <= j <= bs.len(),
    ensures
        agree_during(settle_list(st, a, bs.take(j), ov, mac), done, a, bs, j, first),
    decreases j,
{
    if j > 0 {
        lemma_settle_list_agree(st, done, a, bs, j - 1, first, ov, mac);
        assert(bs.take(j).drop_last() =~= bs.take(j - 1));
        assert(bs.take(j).last() == bs[j - 1]);
        lemma_settle_one_agree(settle_list(st, a, bs.take(j - 1), ov, mac), done, a, bs, j - 1, first, ov, mac);
    }
}


/// Weighing the actions of the table in turn keeps the bindings and the
/// lists in agreement for every action weighed.
proof fn lemma_settle_agree(first: Settled, i: int, ov: Seq<(Seq<char>, Seq<Seq<char>>)>, mac: bool)
    requires
        first.bindings.len() == 0,
        first.lists == asked(ov, all_actions(), mac),
        0 <= i <= all_actions().len(),
    ensures
        agree_for(settle(first, all_actions().take(i), ov, mac), all_actions().take(i), first),
    decreases i,
{
    let acts = all_actions();
    lemma_actions_distinct();
    if i == 0 {
        assert(acts.take(0) =~= Seq::<Action>::empty());
        assert forall|b: Seq<char>, x: Action| #[trigger] first.bindings.contains((b, x)) implies false by {}
    } else {
        lemma_settle_agree(first, i - 1, ov, mac);
        let done = acts.take(i - 1);
        let s1 = settle(first, done, ov, mac);
        let a = acts[i - 1];
        assert(acts.take(i).drop_last() =~= done);
        assert(acts.take(i).last() == a);
        assert(!done.contains(a)) by {
            if done.contains(a) {
                let w = choose|w: int| 0 <= w < done.len() && done[w] == a;
                assert(acts[w] == acts[i - 1]);
            }
        }
        lemma_asked_lists(ov, mac, a);
        let bs = list_of(s1.lists, a);
        assert(bs == asked_keys(ov, a, mac));
        assert(bs.take(0) =~= Seq::<Seq<char>>::empty());
        assert forall|c: Seq<char>| #[trigger] bs.contains(c) implies bs.contains(c) by {}
        assert forall|k: int| 0 <= k < bs.len() implies list_of(s1.lists, a).contains(#[trigger] bs[k]) by {
            assert(bs[k] == bs[k]);
        }
        assert(agree_during(s1, done, a, bs, 0, first));
        lemma_settle_list_agree(s1, done, a, bs, bs.len() as int, first, ov, mac);
        assert(bs.take(bs.len() as int) =~= bs);
        let s2 = settle(first, acts.take(i), ov, mac);
        assert(s2 == settle_list(s1, a, bs, ov, mac));
        assert forall|x: Action| #[trigger] acts.take(i).contains(x) <==> (done.contains(x) || x == a) by {
            lemma_take_push(acts, i - 1);
            lemma_contains_push(done, a, x);
        }
        assert forall|b: Seq<char>, x: Action| acts.take(i).contains(x) && #[trigger] list_of(s2.lists, x).contains(b)
            implies s2.bindings.contains((b, x)) by {
            if x == a {
                assert(bs.contains(b));
                assert(bs.take(bs.len() as int).contains(b));
            }
        }
    }
}

/// The bindings and the lists agree for every action.
pub open spec fn agree(st: Settled) -> bool {
    &&& keys_distinct(st.bindings)
    &&& forall|b: Seq<char>, x: Action| #[trigger] st.bindings.contains((b, x)) <==> list_of(st.lists, x).contains(b)
}

proof fn lemma_prune_one_agree(st: Settled, b: Seq<char>, mac: bool)
    requires
        agree(st),
    ensures
        agree(prune_one(st, b, mac)),
{
    let bb = st.bindings;
    let nst = prune_one(st, b, mac);
    assert forall|i: int| 0 <= i < bb.len() implies #[trigger] lefts(bb).contains(bb[i].0) by {
        assert(lefts(bb)[i] == bb[i].0);
    }
    lemma_prune_one_keeps(st, b, Seq::empty(), lefts(bb), mac);
    match first_cut(bb, b, 1) {
        None => {},
        Some(cut) => {
            match first_key(bb, b) {
                None => {},
                Some(k) => {
                    let w = choose|k: int| is_first(bb, b, k);
                    assert(is_first(bb, b, w));
                    let x = bb[k].1;
                    let nb = bb.remove(k);
                    assert(nst.bindings == nb);
                    assert(nst.lists == without(st.lists, x, b));
                    assert forall|c: Seq<char>, y: Action| #[trigger] nb.contains((c, y)) <==> list_of(nst.lists, y).contains(c) by {
                        lemma_list_of_without(st.lists, x, b, y);
                        lemma_removed_contains(list_of(st.lists, x), b, c);
                        if nb.contains((c, y)) {
                            let i = choose|i: int| 0 <= i < nb.len() && nb[i] == (c, y);
                            let oi = if i < k { i } else { i + 1 };
                            assert(nb[i] == bb[oi]);
                            assert(bb.contains((c, y)));
                            assert(c != b);
                        }
                        if list_of(nst.lists, y).contains(c) {
                            assert(list_of(st.lists, y).contains(c));
                            assert(bb.contains((c, y)));
                            let i = choose|i: int| 0 <= i < bb.len() && bb[i] == (c, y);
                            assert(i != k);
                            let ni = if i < k { i } else { i - 1 };
                            assert(nb[ni] == bb[i]);
                        }
                    }
                },
            }
        },
    }
}

proof fn lemma_prune_agree(st: Settled, bs: Seq<Seq<char>>, mac: bool)
    requires
        agree(st),
    ensures
        agree(prune(st, bs, mac)),
    decreases bs.len(),
{
    if bs.len() > 0 {
        lemma_prune_agree(st, bs.drop_last(), mac);
        lemma_prune_one_agree(prune(st, bs.drop_last(), mac), bs.last(), mac);
    }
}

/// The keys an action is listed with are exactly the bindings that do it:
/// a binding is in force for an action when, and only when, it is on that
/// action's list.
pub proof fn law_the_lists_agree_with_the_bindings(ov: Seq<(Seq<char>, Seq<Seq<char>>)>, mac: bool, b: Seq<char>, a: Action)
    ensures
        built(ov, mac).bindings.contains((b, a)) <==> list_of(built(ov, mac).lists, a).contains(b),
{
    let first = Settled {
        bindings: Seq::empty(),
        lists: asked(ov, all_actions(), mac),
        problems: unknown_names(ov) + read_problems(ov, all_actions(), mac),
    };
    lemma_actions_distinct();
    lemma_settle_agree(first, all_actions().len() as int, ov, mac);
    assert(all_actions().take(all_actions().len() as int) =~= all_actions());
    let second = settle(first, all_actions(), ov, mac);
    assert forall|x: Action| #[trigger] all_actions().contains(x) by {
        assert(all_actions()[place(x)] == x) by {
            let w = all_actions()[place(x)];
            assert(place(w) == place(x));
        }
    }
    assert(agree(second));
    lemma_prune_agree(second, lefts(second.bindings), mac);
}

/// One chord, one action: no binding is in force twice.
pub proof fn law_one_binding_one_action(ov: Seq<(Seq<char>, Seq<Seq<char>>)>, mac: bool)
    ensures
        keys_distinct(built(ov, mac).bindings),
{
    law_no_binding_begins_another(ov, mac);
}

/// A binding that does something never begins another one that does: a key
/// that would have to wait to find out which it is would feel broken, so
/// the shorter one keeps it.
pub proof fn law_no_binding_begins_another(ov: Seq<(Seq<char>, Seq<Seq<char>>)>, mac: bool)
    ensures
        keys_distinct(built(ov, mac).bindings),
        forall|i: int, cut: int|
            0 <= i < built(ov, mac).bindings.len() && 1 <= cut < chord_count(built(ov, mac).bindings[i].0)
                ==> !lefts(built(ov, mac).bindings).contains(#[trigger] head_of(built(ov, mac).bindings[i].0, cut)),
{
    let first = Settled {
        bindings: Seq::empty(),
        lists: asked(ov, all_actions(), mac),
        problems: unknown_names(ov) + read_problems(ov, all_actions(), mac),
    };
    lemma_settle_distinct(first, all_actions(), ov, mac);
    let second = settle(first, all_actions(), ov, mac);
    let all = lefts(second.bindings);
    assert forall|i: int| 0 <= i < second.bindings.len() implies #[trigger] all.contains(second.bindings[i].0) by {
        assert(all[i] == second.bindings[i].0);
    }
    assert(pruned_so_far(second, Seq::empty(), all));
    lemma_prune_keeps(second, all, Seq::empty(), all, mac);
    assert(Seq::<Seq<char>>::empty() + all =~= all);
    let last = built(ov, mac);
    assert forall|i: int, cut: int|
        0 <= i < last.bindings.len() && 1 <= cut < chord_count(last.bindings[i].0)
            implies !lefts(last.bindings).contains(#[trigger] head_of(last.bindings[i].0, cut)) by {
        assert(all.contains(last.bindings[i].0));
    }
}

/// A chord that begins a longer binding never does anything on its own, so
/// waiting on it is never a mistake.
pub proof fn law_a_prefix_is_never_bound(ov: Seq<(Seq<char>, Seq<Seq<char>>)>, mac: bool, p: Seq<char>)
    requires
        prefix_set(built(ov, mac).bindings).contains(p),
    ensures
        bound_to(built(ov, mac).bindings, p) is None,
{
    let bb = built(ov, mac).bindings;
    law_no_binding_begins_another(ov, mac);
    let (k, cut) = choose|k: int, cut: int|
        0 <= k < bb.len() && 1 <= cut < chord_count(bb[k].0) && p == #[trigger] head_of(bb[k].0, cut);
    assert(!lefts(bb).contains(head_of(bb[k].0, cut)));
    lemma_first_none(bb, p);
}

proof fn lemma_without_lefts(lists: Seq<(Action, Seq<Seq<char>>)>, a: Action, b: Seq<char>)
    ensures
        lefts(without(lists, a, b)) == lefts(lists),
{
    assert(lefts(without(lists, a, b)) =~= lefts(lists));
}

proof fn lemma_settle_list_lefts(st: Settled, a: Action, bs: Seq<Seq<char>>, ov: Seq<(Seq<char>, Seq<Seq<char>>)>, mac: bool)
    ensures
        lefts(settle_list(st, a, bs, ov, mac).lists) == lefts(st.lists),
    decreases bs.len(),
{
    if bs.len() > 0 {
        lemma_settle_list_lefts(st, a, bs.drop_last(), ov, mac);
        let s1 = settle_list(st, a, bs.drop_last(), ov, mac);
        if let Some(k) = first_key(s1.bindings, bs.last()) {
            let taken = s1.bindings[k].1;
            let loser = if in_file(ov, a) && !in_file(ov, taken) { taken } else { a };
            lemma_without_lefts(s1.lists, loser, bs.last());
        }
    }
}

proof fn lemma_settle_lefts(st: Settled, acts: Seq<Action>, ov: Seq<(Seq<char>, Seq<Seq<char>>)>, mac: bool)
    ensures
        lefts(settle(st, acts, ov, mac).lists) == lefts(st.lists),
    decreases acts.len(),
{
    if acts.len() > 0 {
        lemma_settle_lefts(st, acts.drop_last(), ov, mac);
        let s1 = settle(st, acts.drop_last(), ov, mac);
        lemma_settle_list_lefts(s1, acts.last(), list_of(s1.lists, acts.last()), ov, mac);
    }
}

proof fn lemma_prune_lefts(st: Settled, bs: Seq<Seq<char>>, mac: bool)
    ensures
        lefts(prune(st, bs, mac).lists) == lefts(st.lists),
    decreases bs.len(),
{
    if bs.len() > 0 {
        lemma_prune_lefts(st, bs.drop_last(), mac);
        let s1 = prune(st, bs.drop_last(), mac);
        if let Some(cut) = first_cut(s1.bindings, bs.last(), 1) {
            if let Some(k) = first_key(s1.bindings, bs.last()) {
                lemma_without_lefts(s1.lists, s1.bindings[k].1, bs.last());
            }
        }
    }
}

/// Every action keeps its place on the list of actions and their keys, in
/// the table's order, whatever the file says: one it unbinds, or one whose
/// keys all went to others, is there with no keys.
pub proof fn law_every_action_keeps_a_list(ov: Seq<(Seq<char>, Seq<Seq<char>>)>, mac: bool)
    ensures
        lefts(built(ov, mac).lists) == all_actions(),
{
    let first = Settled {
        bindings: Seq::empty(),
        lists: asked(ov, all_actions(), mac),
        problems: unknown_names(ov) + read_problems(ov, all_actions(), mac),
    };
    assert(lefts(first.lists) =~= all_actions());
    lemma_settle_lefts(first, all_actions(), ov, mac);
    let second = settle(first, all_actions(), ov, mac);
    lemma_prune_lefts(second, lefts(second.bindings), mac);
}

} // verus!
