//! The keyboard, as a file: `keys.toml`, a table of action names against the
//! keys that ask for them.
//!
//! What this side owns is the file's shape: which of its entries are a key
//! or a list of keys, and which are not. The meaning of a line (an action
//! Moonowl has never heard of, a chord it cannot read) is the keymap's to
//! report. Reading the file is done outside this library; its text is
//! parsed here, through `toml`, and the table judged.

use vstd::prelude::*;
use toml::Value;
use crate::text::{chars_of, names_in_order, push_str, same, string_of, text_before};

verus! {

/// The file the keys are read from.
pub const FILE: &'static str = "keys.toml";

/// One item of a list in the file: a key, or a value of another kind, by
/// the name `toml` gives its kind (`integer`, `table`, ...).
#[derive(Clone, Debug)]
pub enum Item {
    Text(String),
    Other(String),
}

/// One entry's value in the file.
#[derive(Clone, Debug)]
pub enum Entry {
    /// One key, written without the brackets.
    Text(String),
    List(Vec<Item>),
    /// A value of another kind, by the name `toml` gives its kind.
    Other(String),
}

/// An item of a list, as mathematics.
pub enum ItemView {
    Text(Seq<char>),
    Other(Seq<char>),
}

/// An entry's value, as mathematics.
pub enum EntryView {
    Text(Seq<char>),
    List(Seq<ItemView>),
    Other(Seq<char>),
}

impl View for Item {
    type V = ItemView;

    open spec fn view(&self) -> ItemView {
        match self {
            Item::Text(s) => ItemView::Text(s@),
            Item::Other(k) => ItemView::Other(k@),
        }
    }
}

pub open spec fn items_view(items: Seq<Item>) -> Seq<ItemView> {
    items.map_values(|i: Item| i@)
}

impl View for Entry {
    type V = EntryView;

    open spec fn view(&self) -> EntryView {
        match self {
            Entry::Text(s) => EntryView::Text(s@),
            Entry::List(items) => EntryView::List(items_view(items@)),
            Entry::Other(k) => EntryView::Other(k@),
        }
    }
}

/// Action name against the keys the reader has given it, in the file's
/// order, and the lines that were not usable, in words meant for the reader.
#[derive(Clone, Debug)]
pub struct Keys {
    pub bindings: Vec<(String, Vec<String>)>,
    pub problems: Vec<String>,
}

impl Default for Keys {
    fn default() -> (r: Keys)
        ensures
            r.bindings@.len() == 0,
            r.problems@.len() == 0,
    {
        Keys { bindings: Vec::new(), problems: Vec::new() }
    }
}

/// What a value is called in a problem, from the name `toml` gives its
/// kind; a name it does not give is said as it is.
pub open spec fn kind_name(k: Seq<char>) -> Seq<char> {
    if k == "string"@ {
        "text"@
    } else if k == "integer"@ || k == "float"@ {
        "a number"@
    } else if k == "boolean"@ {
        "true or false"@
    } else if k == "datetime"@ {
        "a date"@
    } else if k == "array"@ {
        "a list"@
    } else if k == "table"@ {
        "a table"@
    } else {
        k
    }
}

/// What a value is called in a problem.
pub fn kind_of(k: &str) -> (r: String)
    ensures
        r@ == kind_name(k@),
{
    let words = if same(k, "string") {
        "text"
    } else if same(k, "integer") || same(k, "float") {
        "a number"
    } else if same(k, "boolean") {
        "true or false"
    } else if same(k, "datetime") {
        "a date"
    } else if same(k, "array") {
        "a list"
    } else if same(k, "table") {
        "a table"
    } else {
        k
    };
    string_of(chars_of(words).as_slice())
}

/// The keys of a list: its text items, in order.
pub open spec fn texts_of(items: Seq<ItemView>) -> Seq<Seq<char>>
    decreases items.len(),
{
    if items.len() == 0 {
        Seq::empty()
    } else {
        let t = texts_of(items.drop_last());
        match items.last() {
            ItemView::Text(s) => t.push(s),
            ItemView::Other(_) => t,
        }
    }
}

/// What is said of the items of a list that are not keys, in order.
pub open spec fn bad_items(action: Seq<char>, items: Seq<ItemView>) -> Seq<Seq<char>>
    decreases items.len(),
{
    if items.len() == 0 {
        Seq::empty()
    } else {
        let b = bad_items(action, items.drop_last());
        match items.last() {
            ItemView::Text(_) => b,
            ItemView::Other(k) => b.push(action + ": "@ + kind_name(k) + " is not a key. Keys are written in quotes."@),
        }
    }
}

/// The file's table judged entry by entry: the bindings it gives, and the
/// problems. A list with one bad entry in it is a typo: the readable half is
/// kept, and an entry that is nothing but bad items binds nothing.
pub open spec fn judged(table: Seq<(Seq<char>, EntryView)>) -> (Seq<(Seq<char>, Seq<Seq<char>>)>, Seq<Seq<char>>)
    decreases table.len(),
{
    if table.len() == 0 {
        (Seq::empty(), Seq::empty())
    } else {
        let (b, p) = judged(table.drop_last());
        let (action, value) = table.last();
        match value {
            EntryView::Text(one) => (b.push((action, seq![one])), p),
            EntryView::List(items) => {
                let chords = texts_of(items);
                let bad = bad_items(action, items);
                (if bad.len() == 0 || chords.len() > 0 { b.push((action, chords)) } else { b }, p + bad)
            },
            EntryView::Other(k) => (b, p.push(action + ": expected a key or a list of keys, found "@ + kind_name(k) + "."@)),
        }
    }
}

pub open spec fn table_view(table: Seq<(String, Entry)>) -> Seq<(Seq<char>, EntryView)> {
    table.map_values(|p: (String, Entry)| (p.0@, p.1@))
}

/// What `toml` makes of a file's text: its table, entry by entry, each value
/// text, a list, or another kind by the name `toml` gives it; or the words
/// of its complaint.
pub uninterp spec fn toml_table(body: Seq<char>) -> Result<Seq<(Seq<char>, EntryView)>, Seq<char>>;

/// Each action the judged table binds is named by the table, and where the
/// table's names are in order, so are the bindings'.
proof fn lemma_judged_names(t: Seq<(Seq<char>, EntryView)>)
    ensures
        forall|i: int| 0 <= i < judged(t).0.len() ==> exists|j: int| 0 <= j < t.len() && #[trigger] judged(t).0[i].0 == t[j].0,
        names_in_order(t) ==> names_in_order(judged(t).0),
    decreases t.len(),
{
    if t.len() > 0 {
        let rest = t.drop_last();
        lemma_judged_names(rest);
        let b0 = judged(rest).0;
        let b = judged(t).0;
        assert forall|i: int| 0 <= i < b.len() implies exists|j: int| 0 <= j < t.len() && #[trigger] b[i].0 == t[j].0 by {
            if i < b0.len() {
                assert(b[i] == b0[i]);
                let j = choose|j: int| 0 <= j < rest.len() && #[trigger] b0[i].0 == rest[j].0;
                assert(rest[j] == t[j]);
            } else {
                assert(b[i].0 == t[t.len() - 1].0);
            }
        }
        if names_in_order(t) {
            assert(names_in_order(rest)) by {
                assert forall|i: int, j: int| 0 <= i < j < rest.len() implies text_before(#[trigger] rest[i].0, #[trigger] rest[j].0) by {
                    assert(rest[i] == t[i] && rest[j] == t[j]);
                }
            }
            assert forall|i: int, j: int| 0 <= i < j < b.len() implies text_before(#[trigger] b[i].0, #[trigger] b[j].0) by {
                if j < b0.len() {
                    assert(b[i] == b0[i] && b[j] == b0[j]);
                } else {
                    assert(b[i] == b0[i]);
                    let k = choose|k: int| 0 <= k < rest.len() && #[trigger] b0[i].0 == rest[k].0;
                    assert(rest[k] == t[k]);
                    assert(b[j].0 == t[t.len() - 1].0);
                }
            }
        }
    }
}

pub open spec fn parsed_view(r: Result<Vec<(String, Entry)>, String>) -> Result<Seq<(Seq<char>, EntryView)>, Seq<char>> {
    match r {
        Ok(t) => Ok(table_view(t@)),
        Err(e) => Err(e@),
    }
}

/// `toml::from_str` into a `toml::Table`: trusted to give, for the same text,
/// the same table in the same order, or the same complaint (its `Display`);
/// and, the table being a `BTreeMap`, its names in the order of `str`, none
/// twice.
/// Each value is handed back as an `Entry`, a list's items as `Item`s: text
/// as text, a list as its items, and any other value by `Value::type_str`.
/// Nothing is said of what the table holds for a given text beyond that it
/// is `toml_table` of it.
#[verifier::external_body]
fn entries_of(body: &str) -> (r: Result<Vec<(String, Entry)>, String>)
    ensures
        parsed_view(r) == toml_table(body@),
        r matches Ok(t) ==> names_in_order(table_view(t@)),
{
    let item = |v: Value| match v { Value::String(chord) => Item::Text(chord), v => Item::Other(v.type_str().to_string()) };
    let entry = |v: Value| match v {
        Value::String(one) => Entry::Text(one),
        Value::Array(items) => Entry::List(items.into_iter().map(item).collect()),
        other => Entry::Other(other.type_str().to_string()),
    };
    match toml::from_str::<toml::Table>(body) {
        Ok(table) => Ok(table.into_iter().map(|(action, value)| (action, entry(value))).collect()),
        Err(e) => Err(e.to_string()),
    }
}

pub open spec fn bindings_view(b: Seq<(String, Vec<String>)>) -> Seq<(Seq<char>, Seq<Seq<char>>)> {
    b.map_values(|p: (String, Vec<String>)| (p.0@, p.1@.map_values(|s: String| s@)))
}

pub open spec fn problems_view(p: Seq<String>) -> Seq<Seq<char>> {
    p.map_values(|s: String| s@)
}

fn copy_text(s: &String) -> (r: String)
    ensures
        r@ == s@,
{
    string_of(chars_of(s.as_str()).as_slice())
}

/// One list judged: its keys, and a problem for each item that is not one.
fn judge_list(action: &String, items: &Vec<Item>, problems: &mut Vec<String>) -> (r: Vec<String>)
    ensures
        r@.map_values(|s: String| s@) == texts_of(items_view(items@)),
        problems_view(final(problems)@) == problems_view(old(problems)@) + bad_items(action@, items_view(items@)),
{
    let mut chords: Vec<String> = Vec::new();
    let mut i: usize = 0;
    let ghost iv = items_view(items@);
    proof { assert(problems_view(problems@) =~= problems_view(old(problems)@) + bad_items(action@, iv.take(0))); }
    while i < items.len()
        invariant
            i <= items@.len(),
            iv == items_view(items@),
            chords@.map_values(|s: String| s@) == texts_of(iv.take(i as int)),
            problems_view(problems@) == problems_view(old(problems)@) + bad_items(action@, iv.take(i as int)),
        decreases items@.len() - i,
    {
        proof {
            assert(iv.take(i + 1).drop_last() =~= iv.take(i as int));
            assert(iv.take(i + 1).last() == items@[i as int]@);
        }
        match &items[i] {
            Item::Text(chord) => {
                let ghost before = chords@;
                chords.push(copy_text(chord));
                proof { assert(chords@.map_values(|s: String| s@) =~= before.map_values(|s: String| s@).push(chord@)); }
            },
            Item::Other(kind) => {
                let mut message = copy_text(action);
                push_str(&mut message, ": ");
                push_str(&mut message, kind_of(kind.as_str()).as_str());
                push_str(&mut message, " is not a key. Keys are written in quotes.");
                let ghost before = problems@;
                problems.push(message);
                proof { assert(problems_view(problems@) =~= problems_view(before).push(message@)); }
            },
        }
        i = i + 1;
    }
    proof { assert(iv.take(items@.len() as int) =~= iv); }
    chords
}

/// The file's table, judged: which entries are a key or a list of keys, and
/// a problem for each that is not.
pub fn keys_from(table: &Vec<(String, Entry)>) -> (r: Keys)
    ensures
        (bindings_view(r.bindings@), problems_view(r.problems@)) == judged(table_view(table@)),
{
    let ghost t = table_view(table@);
    let mut keys = Keys { bindings: Vec::new(), problems: Vec::new() };
    let mut i: usize = 0;
    proof {
        assert(t.take(0) =~= Seq::<(Seq<char>, EntryView)>::empty());
        assert(bindings_view(keys.bindings@) =~= Seq::<(Seq<char>, Seq<Seq<char>>)>::empty());
        assert(problems_view(keys.problems@) =~= Seq::<Seq<char>>::empty());
    }
    while i < table.len()
        invariant
            t == table_view(table@),
            i <= table@.len(),
            (bindings_view(keys.bindings@), problems_view(keys.problems@)) == judged(t.take(i as int)),
        decreases table@.len() - i,
    {
        proof {
            assert(t.take(i + 1).drop_last() =~= t.take(i as int));
            assert(t.take(i + 1).last() == (table@[i as int].0@, table@[i as int].1@));
        }
        let action = &table[i].0;
        let ghost b0 = keys.bindings@;
        let ghost p0 = keys.problems@;
        match &table[i].1 {
            Entry::Text(one) => {
                let mut chords: Vec<String> = Vec::new();
                chords.push(copy_text(one));
                proof { assert(chords@.map_values(|s: String| s@) =~= seq![one@]); }
                keys.bindings.push((copy_text(action), chords));
                proof { assert(bindings_view(keys.bindings@) =~= bindings_view(b0).push((action@, seq![one@]))); }
            },
            Entry::List(items) => {
                let before = keys.problems.len();
                let chords = judge_list(action, items, &mut keys.problems);
                let bad = keys.problems.len() > before;
                proof {
                    assert(problems_view(keys.problems@).len() == keys.problems@.len());
                    assert(problems_view(p0).len() == p0.len());
                    assert(bad == (bad_items(action@, items_view(items@)).len() > 0));
                }
                if !bad || chords.len() > 0 {
                    let ghost c = chords@.map_values(|s: String| s@);
                    keys.bindings.push((copy_text(action), chords));
                    proof { assert(bindings_view(keys.bindings@) =~= bindings_view(b0).push((action@, c))); }
                }
            },
            Entry::Other(kind) => {
                let mut message = copy_text(action);
                push_str(&mut message, ": expected a key or a list of keys, found ");
                push_str(&mut message, kind_of(kind.as_str()).as_str());
                push_str(&mut message, ".");
                keys.problems.push(message);
                proof { assert(problems_view(keys.problems@) =~= problems_view(p0).push(message@)); }
            },
        }
        i = i + 1;
    }
    proof { assert(t.take(table@.len() as int) =~= t); }
    keys
}

/// What a file that could not be read comes to: no keys, and one problem
/// that says so.
pub fn could_not_read(why: &str) -> (r: Keys)
    ensures
        r.bindings@.len() == 0,
        problems_view(r.problems@) == seq!["keys.toml could not be read: "@ + why@],
{
    let mut message = String::new();
    push_str(&mut message, "keys.toml could not be read: ");
    push_str(&mut message, why);
    let mut problems: Vec<String> = Vec::new();
    problems.push(message);
    proof { assert(problems_view(problems@) =~= seq!["keys.toml could not be read: "@ + why@]); }
    Keys { bindings: Vec::new(), problems }
}

/// What a file that is not TOML comes to: no keys, and the parser's words,
/// which carry the line and column.
pub fn not_toml(why: &str) -> (r: Keys)
    ensures
        r.bindings@.len() == 0,
        problems_view(r.problems@) == seq!["keys.toml is not readable TOML: "@ + why@],
{
    let mut message = String::new();
    push_str(&mut message, "keys.toml is not readable TOML: ");
    push_str(&mut message, why);
    let mut problems: Vec<String> = Vec::new();
    problems.push(message);
    proof { assert(problems_view(problems@) =~= seq!["keys.toml is not readable TOML: "@ + why@]); }
    Keys { bindings: Vec::new(), problems }
}

/// The keys a file's text gives: its TOML table judged entry by entry, the
/// actions in the order of their names, none twice; or, where the text is
/// not TOML, no keys and one problem carrying the parser's words, which name
/// the line and column.
pub fn keys_from_text(body: &str) -> (r: Keys)
    ensures
        match toml_table(body@) {
            Ok(t) => (bindings_view(r.bindings@), problems_view(r.problems@)) == judged(t),
            Err(e) => r.bindings@.len() == 0
                && problems_view(r.problems@) == seq!["keys.toml is not readable TOML: "@ + e],
        },
        names_in_order(bindings_view(r.bindings@)),
{
    match entries_of(body) {
        Ok(table) => {
            proof { lemma_judged_names(table_view(table@)); }
            keys_from(&table)
        },
        Err(e) => not_toml(e.as_str()),
    }
}

} // verus!
