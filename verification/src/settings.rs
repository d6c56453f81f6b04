//! Settings live in one flat, hand-editable TOML table of scalars, each
//! setting independent of the others. Reading and writing the file, and the
//! values themselves, are handled outside this library; what is decided here
//! is which values are taken: a value must be the kind of thing its setting
//! holds, and a key nothing knows is refused rather than quietly creating a
//! setting nothing reads.

use vstd::prelude::*;
use crate::text::push_str;

verus! {

/// What kind of value a setting holds, or is offered.
#[derive(Clone, Copy, Debug, PartialEq, Eq, Structural)]
pub enum Shape {
    /// Nothing yet: the window's position before it has ever been placed.
    Null,
    Boolean,
    Number,
    Text,
    /// A list, a table or a date: never a setting's value.
    Other,
}

/// Whether a value is the kind of thing a setting holds, judged against the
/// setting's default: null is taken only where the default is null, which
/// also takes a number; a number is a number, whether whole or not.
pub open spec fn shapes_agree(default: Shape, value: Shape) -> bool {
    match (default, value) {
        (Shape::Null, Shape::Null) => true,
        (Shape::Null, Shape::Number) => true,
        (Shape::Boolean, Shape::Boolean) => true,
        (Shape::Number, Shape::Number) => true,
        (Shape::Text, Shape::Text) => true,
        _ => false,
    }
}

pub fn same_shape(default: Shape, value: Shape) -> (r: bool)
    ensures
        r == shapes_agree(default, value),
        value != Shape::Other && default == value ==> r,
{
    match (default, value) {
        (Shape::Null, Shape::Null) => true,
        (Shape::Null, Shape::Number) => true,
        (Shape::Boolean, Shape::Boolean) => true,
        (Shape::Number, Shape::Number) => true,
        (Shape::Text, Shape::Text) => true,
        _ => false,
    }
}

/// Whether a value read from the file is laid over the defaults: a scalar,
/// and, where the setting is known, of its default's kind. A key this
/// version does not know is carried through, since it belongs to another.
pub fn kept_on_load(default: Option<Shape>, value: Shape) -> (r: bool)
    ensures
        r == (value != Shape::Other && match default {
            Some(d) => shapes_agree(d, value),
            None => true,
        }),
        value != Shape::Other && default == Some(value) ==> r,
{
    if value == Shape::Other {
        return false;
    }
    match default {
        Some(d) => same_shape(d, value),
        None => true,
    }
}

/// What becomes of one setting offered for writing.
#[derive(Clone, Copy, Debug, PartialEq, Eq, Structural)]
pub enum Verdict {
    Taken,
    /// The setting exists and does not take that kind of value.
    WrongKind,
    /// No setting has that name.
    Unknown,
}

pub open spec fn verdict_of(default: Option<Shape>, value: Shape) -> Verdict {
    match default {
        Some(d) => if shapes_agree(d, value) { Verdict::Taken } else { Verdict::WrongKind },
        None => Verdict::Unknown,
    }
}

/// What becomes of a setting offered for writing, its default being what
/// the known settings say of its key.
pub fn judge(default: Option<Shape>, value: Shape) -> (r: Verdict)
    ensures
        r == verdict_of(default, value),
        value != Shape::Other && default == Some(value) ==> r == Verdict::Taken,
{
    match default {
        Some(d) => if same_shape(d, value) { Verdict::Taken } else { Verdict::WrongKind },
        None => Verdict::Unknown,
    }
}

/// What a refused setting is said as.
pub open spec fn refusal_text(key: Seq<char>, verdict: Verdict) -> Seq<char> {
    match verdict {
        Verdict::WrongKind => key + " does not take that kind of value"@,
        _ => "unknown setting "@ + key,
    }
}

/// The refusals among the judged settings, in order.
pub open spec fn refused(judged: Seq<(Seq<char>, Verdict)>) -> Seq<Seq<char>>
    decreases judged.len(),
{
    if judged.len() == 0 {
        Seq::empty()
    } else {
        let r = refused(judged.drop_last());
        let (key, verdict) = judged.last();
        if verdict == Verdict::Taken { r } else { r.push(refusal_text(key, verdict)) }
    }
}

/// Some lines with `; ` between each two.
pub open spec fn joined(lines: Seq<Seq<char>>) -> Seq<char>
    decreases lines.len(),
{
    if lines.len() == 0 {
        Seq::empty()
    } else if lines.len() == 1 {
        lines[0]
    } else {
        joined(lines.drop_last()) + "; "@ + lines.last()
    }
}

/// What a write of several settings answers: nothing when every one was
/// taken, and otherwise every refusal in one line, so that a typo still
/// surfaces. The settings that were taken are written either way.
pub fn refusals(judged: &Vec<(String, Verdict)>) -> (r: Option<String>)
    ensures
        match r {
            None => refused(judged@.map_values(|j: (String, Verdict)| (j.0@, j.1))).len() == 0,
            Some(line) => refused(judged@.map_values(|j: (String, Verdict)| (j.0@, j.1))).len() > 0
                && line@ == joined(refused(judged@.map_values(|j: (String, Verdict)| (j.0@, j.1)))),
        },
{
    let ghost all = judged@.map_values(|j: (String, Verdict)| (j.0@, j.1));
    let mut line = String::new();
    let mut any = false;
    let mut i: usize = 0;
    proof { assert(all.take(0) =~= Seq::<(Seq<char>, Verdict)>::empty()); }
    while i < judged.len()
        invariant
            i <= judged@.len(),
            all == judged@.map_values(|j: (String, Verdict)| (j.0@, j.1)),
            any == (refused(all.take(i as int)).len() > 0),
            any ==> line@ == joined(refused(all.take(i as int))),
            !any ==> line@ == Seq::<char>::empty(),
        decreases judged@.len() - i,
    {
        proof {
            assert(all.take(i + 1).drop_last() =~= all.take(i as int));
            assert(all.take(i + 1).last() == all[i as int]);
        }
        let key = &judged[i].0;
        let verdict = judged[i].1;
        if verdict != Verdict::Taken {
            let ghost before = line@;
            if any {
                push_str(&mut line, "; ");
            }
            match verdict {
                Verdict::WrongKind => {
                    push_str(&mut line, key.as_str());
                    push_str(&mut line, " does not take that kind of value");
                },
                _ => {
                    push_str(&mut line, "unknown setting ");
                    push_str(&mut line, key.as_str());
                },
            }
            proof {
                let r = refused(all.take(i as int));
                let t = refusal_text(key@, verdict);
                assert(refused(all.take(i + 1)) == r.push(t));
                if any {
                    assert(r.push(t).drop_last() =~= r);
                    assert(line@ =~= joined(r) + "; "@ + t);
                } else {
                    assert(r.push(t) =~= seq![t]);
                    assert(line@ =~= t);
                }
            }
            any = true;
        }
        i = i + 1;
    }
    proof { assert(all.take(judged@.len() as int) =~= all); }
    if any { Some(line) } else { None }
}

/// A known setting is checked the same way on the way in as on the way
/// out: a value read from the file is kept exactly when a write of it would
/// be taken.
pub proof fn law_reading_and_writing_agree(default: Shape, value: Shape)
    ensures
        (verdict_of(Some(default), value) == Verdict::Taken) == (value != Shape::Other && shapes_agree(default, value)),
{
}

/// A value of exactly its setting's kind is always taken, on the way in and
/// on the way out: a switch written `false` where it ships `true`, a number
/// for a number, text for text, and null where null is the default. A list
/// or a table never is, and neither is a value of another scalar kind, but
/// for a number where the default is null.
pub proof fn law_a_value_of_its_own_kind_is_taken(kind: Shape, value: Shape)
    ensures
        kind != Shape::Other ==> shapes_agree(kind, kind) && verdict_of(Some(kind), kind) == Verdict::Taken,
        value == Shape::Other ==> !shapes_agree(kind, value),
        kind != value && !(kind == Shape::Null && value == Shape::Number) ==> !shapes_agree(kind, value),
{
}

} // verus!
