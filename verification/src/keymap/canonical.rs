//! A chord read once reads back as itself: its canonical spelling is one
//! the reader accepts, and reads as the same chord.

use vstd::prelude::*;
use crate::keymap::{aliases_table, chord_of, first_prefix, is_function_key, lookup, modifier_table, names_has, names_table, no_mods, peel, spelled, with_modifier, Mods};
use crate::text::{begins_with, is_white, trim_end, trim_start, trimmed};
use crate::unicode::{all_ascii, ascii_lower, lowercase};

verus! {

/// ASCII with no capital letter in it, and no white space at either end.
pub open spec fn plain_text(s: Seq<char>) -> bool {
    &&& s.len() > 0
    &&& !is_white(s[0])
    &&& !is_white(s.last())
    &&& forall|k: int| 0 <= k < s.len() ==> (#[trigger] s[k] as u32) < 0x80 && !('A' <= s[k] <= 'Z')
}

/// No `+` anywhere but first.
pub open spec fn no_later_plus(s: Seq<char>) -> bool {
    forall|k: int| 1 <= k < s.len() ==> #[trigger] s[k] != '+'
}

/// The length and first two letters of some alias.
pub open spec fn alias_like(s: Seq<char>) -> bool {
    s.len() >= 3 && ((s.len() == 3 && s[0] == 'e' && s[1] == 's') || (s.len() == 6 && s[0] == 'r' && s[1] == 'e') || (s.len() == 8 && s[0] == 's' && s[1] == 'p') || (s.len() == 9 && s[0] == 'a' && s[1] == 'r') || (s.len() == 10 && s[0] == 'a' && s[1] == 'r') || (s.len() == 7 && s[0] == 'a' && s[1] == 'r') || (s.len() == 9 && s[0] == 'a' && s[1] == 'r') || (s.len() == 7 && s[0] == 'p' && s[1] == 'a') || (s.len() == 9 && s[0] == 'p' && s[1] == 'a') || (s.len() == 4 && s[0] == 'p' && s[1] == 'g') || (s.len() == 4 && s[0] == 'p' && s[1] == 'g') || (s.len() == 3 && s[0] == 'd' && s[1] == 'e') || (s.len() == 4 && s[0] == 'p' && s[1] == 'l') || (s.len() == 5 && s[0] == 'm' && s[1] == 'i') || (s.len() == 6 && s[0] == 'e' && s[1] == 'q') || (s.len() == 5 && s[0] == 'e' && s[1] == 'q') || (s.len() == 5 && s[0] == 's' && s[1] == 'l') || (s.len() == 5 && s[0] == 'c' && s[1] == 'o') || (s.len() == 6 && s[0] == 'p' && s[1] == 'e') || (s.len() == 3 && s[0] == 'd' && s[1] == 'o') || (s.len() == 9 && s[0] == 's' && s[1] == 'e') || (s.len() == 9 && s[0] == 'b' && s[1] == 'a') || (s.len() == 9 && s[0] == 'b' && s[1] == 'a') || (s.len() == 5 && s[0] == 'g' && s[1] == 'r'))
}

proof fn lemma_differs_at(s: Seq<char>, p: Seq<char>, i: int)
    requires
        0 <= i < p.len(),
        i < s.len(),
        s[i] != p[i],
    ensures
        !begins_with(s, p),
{
    if begins_with(s, p) {
        assert(s.take(p.len() as int)[i] == s[i]);
    }
}

proof fn lemma_first_prefix_skip(s: Seq<char>, list: Seq<Seq<char>>, from: int, to: int)
    requires
        0 <= from <= to <= list.len(),
        forall|i: int| from <= i < to ==> !begins_with(s, #[trigger] list[i]),
    ensures
        first_prefix(s, list, from) == first_prefix(s, list, to),
    decreases to - from,
{
    if from < to {
        lemma_first_prefix_skip(s, list, from + 1, to);
    }
}

proof fn lemma_first_prefix_found(s: Seq<char>, list: Seq<Seq<char>>, from: int)
    ensures
        first_prefix(s, list, from) matches Some(j) ==> from <= j < list.len() && begins_with(s, list[j]),
    decreases list.len() - from,
{
    if 0 <= from < list.len() && !begins_with(s, list[from]) {
        lemma_first_prefix_found(s, list, from + 1);
    }
}

proof fn lemma_modifier(i: int)
    requires
        0 <= i < 12,
    ensures
        modifier_table().len() == 12,
        modifier_table()[i].len() >= 4,
        modifier_table()[i][modifier_table()[i].len() - 1] == '+',
        !is_white(modifier_table()[i][0]),
        forall|k: int| 0 <= k < modifier_table()[i].len() ==>
            (#[trigger] modifier_table()[i][k] as u32) < 0x80 && !('A' <= modifier_table()[i][k] <= 'Z'),
{
    reveal_strlit("command+");
    reveal_strlit("control+");
    reveal_strlit("option+");
    reveal_strlit("super+");
    reveal_strlit("shift+");
    reveal_strlit("meta+");
    reveal_strlit("cmd+");
    reveal_strlit("ctrl+");
    reveal_strlit("opt+");
    reveal_strlit("alt+");
    reveal_strlit("mod+");
    reveal_strlit("win+");
    // Row by row, so that each is read with its own spelling.
    if i == 0 {
    } else if i == 1 {
    } else if i == 2 {
    } else if i == 3 {
    } else if i == 4 {
    } else if i == 5 {
    } else if i == 6 {
    } else if i == 7 {
    } else if i == 8 {
    } else if i == 9 {
    } else if i == 10 {
    } else if i == 11 {
    }
}

/// A string with no `+` after its first character begins with no modifier.
proof fn lemma_no_modifier_at_start(s: Seq<char>)
    requires
        no_later_plus(s),
    ensures
        first_prefix(s, modifier_table(), 0) is None,
{
    lemma_modifier(0);
    assert forall|i: int| 0 <= i < modifier_table().len() implies !begins_with(s, #[trigger] modifier_table()[i]) by {
        lemma_modifier(i);
        let p = modifier_table()[i];
        if p.len() <= s.len() {
            lemma_differs_at(s, p, p.len() - 1);
        }
    }
    lemma_first_prefix_skip(s, modifier_table(), 0, 12);
}

/// Peeling a modifier's spelling off the front of a string sets that
/// modifier and goes on with the rest.
proof fn lemma_peel_modifier(x: Seq<char>, j: int, m: Mods, mac: bool)
    requires
        0 <= j < 12,
    ensures
        peel(modifier_table()[j] + x, m, mac) == peel(x, with_modifier(m, j, mac), mac),
{
    reveal_strlit("command+");
    reveal_strlit("control+");
    reveal_strlit("option+");
    reveal_strlit("super+");
    reveal_strlit("shift+");
    reveal_strlit("meta+");
    reveal_strlit("cmd+");
    reveal_strlit("ctrl+");
    reveal_strlit("opt+");
    reveal_strlit("alt+");
    reveal_strlit("mod+");
    reveal_strlit("win+");
    let t = modifier_table();
    let s = t[j] + x;
    if j == 0 {
    } else if j == 1 {
        assert(s[2] == t[j][2]);
        lemma_differs_at(s, t[0], 2);
    } else if j == 2 {
        assert(s[0] == t[j][0]);
        lemma_differs_at(s, t[0], 0);
        assert(s[0] == t[j][0]);
        lemma_differs_at(s, t[1], 0);
    } else if j == 3 {
        assert(s[0] == t[j][0]);
        lemma_differs_at(s, t[0], 0);
        assert(s[0] == t[j][0]);
        lemma_differs_at(s, t[1], 0);
        assert(s[0] == t[j][0]);
        lemma_differs_at(s, t[2], 0);
    } else if j == 4 {
        assert(s[0] == t[j][0]);
        lemma_differs_at(s, t[0], 0);
        assert(s[0] == t[j][0]);
        lemma_differs_at(s, t[1], 0);
        assert(s[0] == t[j][0]);
        lemma_differs_at(s, t[2], 0);
        assert(s[1] == t[j][1]);
        lemma_differs_at(s, t[3], 1);
    } else if j == 5 {
        assert(s[0] == t[j][0]);
        lemma_differs_at(s, t[0], 0);
        assert(s[0] == t[j][0]);
        lemma_differs_at(s, t[1], 0);
        assert(s[0] == t[j][0]);
        lemma_differs_at(s, t[2], 0);
        assert(s[0] == t[j][0]);
        lemma_differs_at(s, t[3], 0);
        assert(s[0] == t[j][0]);
        lemma_differs_at(s, t[4], 0);
    } else if j == 6 {
        assert(s[1] == t[j][1]);
        lemma_differs_at(s, t[0], 1);
        assert(s[1] == t[j][1]);
        lemma_differs_at(s, t[1], 1);
        assert(s[0] == t[j][0]);
        lemma_differs_at(s, t[2], 0);
        assert(s[0] == t[j][0]);
        lemma_differs_at(s, t[3], 0);
        assert(s[0] == t[j][0]);
        lemma_differs_at(s, t[4], 0);
        assert(s[0] == t[j][0]);
        lemma_differs_at(s, t[5], 0);
    } else if j == 7 {
        assert(s[1] == t[j][1]);
        lemma_differs_at(s, t[0], 1);
        assert(s[1] == t[j][1]);
        lemma_differs_at(s, t[1], 1);
        assert(s[0] == t[j][0]);
        lemma_differs_at(s, t[2], 0);
        assert(s[0] == t[j][0]);
        lemma_differs_at(s, t[3], 0);
        assert(s[0] == t[j][0]);
        lemma_differs_at(s, t[4], 0);
        assert(s[0] == t[j][0]);
        lemma_differs_at(s, t[5], 0);
        assert(s[1] == t[j][1]);
        lemma_differs_at(s, t[6], 1);
    } else if j == 8 {
        assert(s[0] == t[j][0]);
        lemma_differs_at(s, t[0], 0);
        assert(s[0] == t[j][0]);
        lemma_differs_at(s, t[1], 0);
        assert(s[3] == t[j][3]);
        lemma_differs_at(s, t[2], 3);
        assert(s[0] == t[j][0]);
        lemma_differs_at(s, t[3], 0);
        assert(s[0] == t[j][0]);
        lemma_differs_at(s, t[4], 0);
        assert(s[0] == t[j][0]);
        lemma_differs_at(s, t[5], 0);
        assert(s[0] == t[j][0]);
        lemma_differs_at(s, t[6], 0);
        assert(s[0] == t[j][0]);
        lemma_differs_at(s, t[7], 0);
    } else if j == 9 {
        assert(s[0] == t[j][0]);
        lemma_differs_at(s, t[0], 0);
        assert(s[0] == t[j][0]);
        lemma_differs_at(s, t[1], 0);
        assert(s[0] == t[j][0]);
        lemma_differs_at(s, t[2], 0);
        assert(s[0] == t[j][0]);
        lemma_differs_at(s, t[3], 0);
        assert(s[0] == t[j][0]);
        lemma_differs_at(s, t[4], 0);
        assert(s[0] == t[j][0]);
        lemma_differs_at(s, t[5], 0);
        assert(s[0] == t[j][0]);
        lemma_differs_at(s, t[6], 0);
        assert(s[0] == t[j][0]);
        lemma_differs_at(s, t[7], 0);
        assert(s[0] == t[j][0]);
        lemma_differs_at(s, t[8], 0);
    } else if j == 10 {
        assert(s[0] == t[j][0]);
        lemma_differs_at(s, t[0], 0);
        assert(s[0] == t[j][0]);
        lemma_differs_at(s, t[1], 0);
        assert(s[0] == t[j][0]);
        lemma_differs_at(s, t[2], 0);
        assert(s[0] == t[j][0]);
        lemma_differs_at(s, t[3], 0);
        assert(s[0] == t[j][0]);
        lemma_differs_at(s, t[4], 0);
        assert(s[1] == t[j][1]);
        lemma_differs_at(s, t[5], 1);
        assert(s[0] == t[j][0]);
        lemma_differs_at(s, t[6], 0);
        assert(s[0] == t[j][0]);
        lemma_differs_at(s, t[7], 0);
        assert(s[0] == t[j][0]);
        lemma_differs_at(s, t[8], 0);
        assert(s[0] == t[j][0]);
        lemma_differs_at(s, t[9], 0);
    } else if j == 11 {
        assert(s[0] == t[j][0]);
        lemma_differs_at(s, t[0], 0);
        assert(s[0] == t[j][0]);
        lemma_differs_at(s, t[1], 0);
        assert(s[0] == t[j][0]);
        lemma_differs_at(s, t[2], 0);
        assert(s[0] == t[j][0]);
        lemma_differs_at(s, t[3], 0);
        assert(s[0] == t[j][0]);
        lemma_differs_at(s, t[4], 0);
        assert(s[0] == t[j][0]);
        lemma_differs_at(s, t[5], 0);
        assert(s[0] == t[j][0]);
        lemma_differs_at(s, t[6], 0);
        assert(s[0] == t[j][0]);
        lemma_differs_at(s, t[7], 0);
        assert(s[0] == t[j][0]);
        lemma_differs_at(s, t[8], 0);
        assert(s[0] == t[j][0]);
        lemma_differs_at(s, t[9], 0);
        assert(s[0] == t[j][0]);
        lemma_differs_at(s, t[10], 0);
    }
    assert forall|i: int| 0 <= i < j implies !begins_with(s, #[trigger] t[i]) by {
        // Row by row, so that each is read with its own spelling.
        if i == 0 {
        } else if i == 1 {
        } else if i == 2 {
        } else if i == 3 {
        } else if i == 4 {
        } else if i == 5 {
        } else if i == 6 {
        } else if i == 7 {
        } else if i == 8 {
        } else if i == 9 {
        } else if i == 10 {
        }
    }
    lemma_first_prefix_skip(s, t, 0, j);
    assert(s.take(t[j].len() as int) =~= t[j]);
    assert(s.skip(t[j].len() as int) =~= x);
}

/// A chord's spelling, peeled, gives back its modifiers and its key.
proof fn lemma_spelled_reads_back(m: Mods, key: Seq<char>, mac: bool)
    requires
        first_prefix(key, modifier_table(), 0) is None,
        m.ctrl ==> mac,
    ensures
        peel(spelled(m, key), no_mods(), mac) == (m, key),
{
    let t = modifier_table();
    let k3 = if m.shift { t[4] + key } else { key };
    let k2 = if m.alt { t[9] + k3 } else { k3 };
    let k1 = if m.ctrl { t[7] + k2 } else { k2 };
    let k0 = if m.mod_ { t[10] + k1 } else { k1 };
    assert(spelled(m, key) =~= k0);
    let m1 = if m.mod_ { with_modifier(no_mods(), 10, mac) } else { no_mods() };
    if m.mod_ {
        lemma_peel_modifier(k1, 10, no_mods(), mac);
    }
    let m2 = if m.ctrl { with_modifier(m1, 7, mac) } else { m1 };
    if m.ctrl {
        lemma_peel_modifier(k2, 7, m1, mac);
    }
    let m3 = if m.alt { with_modifier(m2, 9, mac) } else { m2 };
    if m.alt {
        lemma_peel_modifier(k3, 9, m2, mac);
    }
    let m4 = if m.shift { with_modifier(m3, 4, mac) } else { m3 };
    if m.shift {
        lemma_peel_modifier(key, 4, m3, mac);
    }
    assert(m4 == m);
}

/// What peeling leaves: a tail of the string that begins with no modifier,
/// and, but on a Mac, no control key it did not start with.
proof fn lemma_peel_facts(s: Seq<char>, m0: Mods, mac: bool)
    ensures
        peel(s, m0, mac).1.len() <= s.len(),
        peel(s, m0, mac).1 == s.skip(s.len() - peel(s, m0, mac).1.len()),
        first_prefix(peel(s, m0, mac).1, modifier_table(), 0) is None,
        !mac ==> peel(s, m0, mac).0.ctrl == m0.ctrl,
    decreases s.len(),
{
    let t = modifier_table();
    lemma_first_prefix_found(s, t, 0);
    match first_prefix(s, t, 0) {
        Some(j) => {
            lemma_modifier(j);
            let rest = s.skip(t[j].len() as int);
            let m1 = with_modifier(m0, j, mac);
            lemma_peel_facts(rest, m1, mac);
            let r = peel(rest, m1, mac).1;
            assert(rest.skip(rest.len() - r.len()) =~= s.skip(s.len() - r.len()));
        },
        None => {
            assert(s.skip(0) =~= s);
        },
    }
}

proof fn lemma_trim_start_tail(s: Seq<char>)
    ensures
        trim_start(s).len() <= s.len(),
        trim_start(s) == s.skip(s.len() - trim_start(s).len()),
        trim_start(s).len() > 0 ==> !is_white(trim_start(s)[0]),
    decreases s.len(),
{
    if s.len() > 0 && is_white(s[0]) {
        lemma_trim_start_tail(s.drop_first());
        let r = trim_start(s.drop_first());
        assert(s.drop_first().skip(s.drop_first().len() - r.len()) =~= s.skip(s.len() - r.len()));
    } else {
        assert(s.skip(0) =~= s);
    }
}

proof fn lemma_trim_end_head(s: Seq<char>)
    ensures
        trim_end(s).len() <= s.len(),
        trim_end(s) == s.take(trim_end(s).len() as int),
        trim_end(s).len() > 0 ==> !is_white(trim_end(s).last()),
    decreases s.len(),
{
    if s.len() > 0 && is_white(s.last()) {
        lemma_trim_end_head(s.drop_last());
        let r = trim_end(s.drop_last());
        assert(s.drop_last().take(r.len() as int) =~= s.take(r.len() as int));
    } else {
        assert(s.take(s.len() as int) =~= s);
    }
}

/// Trimmed text is a run of the text, with no white space at either end.
proof fn lemma_trimmed(s: Seq<char>)
    ensures
        all_ascii(s) ==> all_ascii(trimmed(s)),
        trimmed(s).len() > 0 ==> !is_white(trimmed(s)[0]) && !is_white(trimmed(s).last()),
{
    lemma_trim_start_tail(s);
    let u = trim_start(s);
    lemma_trim_end_head(u);
    let n = s.len() - u.len();
    assert forall|k: int| 0 <= k < trimmed(s).len() implies trimmed(s)[k] == s[n + k] by {
        assert(trimmed(s)[k] == u[k]);
    }
    if trimmed(s).len() > 0 {
        assert(trimmed(s)[0] == u[0]);
    }
    if all_ascii(s) {
        assert forall|k: int| 0 <= k < trimmed(s).len() implies (trimmed(s)[k] as u32) < 0x80 by {
            assert(trimmed(s)[k] == s[n + k]);
        }
    }
}

/// Text with no white space at either end is its own trimming.
proof fn lemma_trimmed_plain(s: Seq<char>)
    requires
        s.len() > 0,
        !is_white(s[0]),
        !is_white(s.last()),
    ensures
        trimmed(s) == s,
{
}

proof fn lemma_lookup_found(table: Seq<(Seq<char>, Seq<char>)>, name: Seq<char>)
    ensures
        lookup(table, name) matches Some(v) ==> exists|i: int| 0 <= i < table.len() && #[trigger] table[i] == (name, v),
    decreases table.len(),
{
    if table.len() > 0 && table[0].0 != name {
        lemma_lookup_found(table.drop_first(), name);
        if lookup(table.drop_first(), name) is Some {
            let v = lookup(table, name)->0;
            let i = choose|i: int| 0 <= i < table.drop_first().len() && #[trigger] table.drop_first()[i] == (name, v);
            assert(table[i + 1] == (name, v));
        }
    } else if table.len() > 0 {
        assert(table[0] == (name, table[0].1));
    }
}

/// What holds of the aliases: each is alias-like, and what each stands for
/// is plain text with no `+` after its first character and is not.
proof fn lemma_alias(i: int)
    requires
        0 <= i < 24,
    ensures
        aliases_table().len() == 24,
        alias_like(aliases_table()[i].0),
        plain_text(aliases_table()[i].1),
        no_later_plus(aliases_table()[i].1),
        !alias_like(aliases_table()[i].1),
{
    reveal_strlit("esc");
    reveal_strlit("return");
    reveal_strlit("spacebar");
    reveal_strlit("arrowleft");
    reveal_strlit("arrowright");
    reveal_strlit("arrowup");
    reveal_strlit("arrowdown");
    reveal_strlit("page-up");
    reveal_strlit("page-down");
    reveal_strlit("pgup");
    reveal_strlit("pgdn");
    reveal_strlit("del");
    reveal_strlit("plus");
    reveal_strlit("minus");
    reveal_strlit("equals");
    reveal_strlit("equal");
    reveal_strlit("slash");
    reveal_strlit("comma");
    reveal_strlit("period");
    reveal_strlit("dot");
    reveal_strlit("semicolon");
    reveal_strlit("backslash");
    reveal_strlit("backquote");
    reveal_strlit("grave");
    reveal_strlit("escape");
    reveal_strlit("enter");
    reveal_strlit("space");
    reveal_strlit("left");
    reveal_strlit("right");
    reveal_strlit("up");
    reveal_strlit("down");
    reveal_strlit("pageup");
    reveal_strlit("pagedown");
    reveal_strlit("delete");
    reveal_strlit("+");
    reveal_strlit("-");
    reveal_strlit("=");
    reveal_strlit("/");
    reveal_strlit(",");
    reveal_strlit(".");
    reveal_strlit(";");
    reveal_strlit("\\");
    reveal_strlit("`");
    // Row by row, so that each is read with its own spelling.
    if i == 0 {
    } else if i == 1 {
    } else if i == 2 {
    } else if i == 3 {
    } else if i == 4 {
    } else if i == 5 {
    } else if i == 6 {
    } else if i == 7 {
    } else if i == 8 {
    } else if i == 9 {
    } else if i == 10 {
    } else if i == 11 {
    } else if i == 12 {
    } else if i == 13 {
    } else if i == 14 {
    } else if i == 15 {
    } else if i == 16 {
    } else if i == 17 {
    } else if i == 18 {
    } else if i == 19 {
    } else if i == 20 {
    } else if i == 21 {
    } else if i == 22 {
    } else if i == 23 {
    }
}

/// Nothing an alias stands for is itself an alias.
proof fn lemma_alias_target_not_alias(v: Seq<char>)
    requires
        !alias_like(v),
    ensures
        lookup(aliases_table(), v) is None,
{
    lemma_lookup_found(aliases_table(), v);
    if lookup(aliases_table(), v) is Some {
        let w = lookup(aliases_table(), v)->0;
        let i = choose|i: int| 0 <= i < aliases_table().len() && #[trigger] aliases_table()[i] == (v, w);
        lemma_alias(i);
    }
}

/// A key's name begins with a letter.
proof fn lemma_name(i: int)
    requires
        0 <= i < 14,
    ensures
        names_table().len() == 14,
        names_table()[i].1.len() > 0,
        !is_white(names_table()[i].1[0]),
{
    reveal_strlit("escape");
    reveal_strlit("space");
    reveal_strlit("enter");
    reveal_strlit("tab");
    reveal_strlit("backspace");
    reveal_strlit("delete");
    reveal_strlit("left");
    reveal_strlit("right");
    reveal_strlit("up");
    reveal_strlit("down");
    reveal_strlit("pageup");
    reveal_strlit("pagedown");
    reveal_strlit("home");
    reveal_strlit("end");
    reveal_strlit("Escape");
    reveal_strlit(" ");
    reveal_strlit("Enter");
    reveal_strlit("Tab");
    reveal_strlit("Backspace");
    reveal_strlit("Delete");
    reveal_strlit("ArrowLeft");
    reveal_strlit("ArrowRight");
    reveal_strlit("ArrowUp");
    reveal_strlit("ArrowDown");
    reveal_strlit("PageUp");
    reveal_strlit("PageDown");
    reveal_strlit("Home");
    reveal_strlit("End");
    // Row by row, so that each is read with its own spelling.
    if i == 0 {
    } else if i == 1 {
    } else if i == 2 {
    } else if i == 3 {
    } else if i == 4 {
    } else if i == 5 {
    } else if i == 6 {
    } else if i == 7 {
    } else if i == 8 {
    } else if i == 9 {
    } else if i == 10 {
    } else if i == 11 {
    } else if i == 12 {
    } else if i == 13 {
    }
}

/// A chord's spelling is plain text when its key is.
proof fn lemma_spelled_plain(m: Mods, key: Seq<char>)
    requires
        plain_text(key),
    ensures
        plain_text(spelled(m, key)),
{
    reveal_strlit("mod+");
    reveal_strlit("ctrl+");
    reveal_strlit("alt+");
    reveal_strlit("shift+");
    let p = (if m.mod_ { "mod+"@ } else { Seq::empty() }) + (if m.ctrl { "ctrl+"@ } else { Seq::empty() }) + (
    if m.alt { "alt+"@ } else { Seq::empty() }) + (if m.shift { "shift+"@ } else { Seq::empty() });
    let c = spelled(m, key);
    assert(c =~= p + key);
    assert forall|k: int| 0 <= k < p.len() implies (#[trigger] p[k] as u32) < 0x80 && !('A' <= p[k] <= 'Z') && !is_white(p[k]) by {}
    assert forall|k: int| 0 <= k < c.len() implies (#[trigger] c[k] as u32) < 0x80 && !('A' <= c[k] <= 'Z') by {
        if k < p.len() {
            assert(c[k] == p[k]);
        } else {
            assert(c[k] == key[k - p.len()]);
        }
    }
    if p.len() > 0 {
        assert(c[0] == p[0]);
    } else {
        assert(c[0] == key[0]);
    }
    assert(c.last() == key.last());
}

/// A chord read once reads back as itself: the spelling a chord is given is
/// one this reader accepts, and reads as the same chord. Stated for text in
/// ASCII, for which what `str::to_lowercase` gives is stated.
pub proof fn law_a_chord_reads_back_as_itself(text: Seq<char>, mac: bool)
    requires
        all_ascii(text),
        chord_of(text, mac) is Some,
    ensures
        chord_of(chord_of(text, mac)->0, mac) == chord_of(text, mac),
{
    let t = trimmed(text);
    lemma_trimmed(text);
    let low = lowercase(t);
    let (mods, rest) = peel(low, no_mods(), mac);
    lemma_peel_facts(low, no_mods(), mac);
    let key = match lookup(aliases_table(), rest) {
        Some(k) => k,
        None => rest,
    };
    let c = spelled(mods, key);
    assert(chord_of(text, mac) == Some(c));
    match lookup(aliases_table(), rest) {
        Some(v) => {
            lemma_lookup_found(aliases_table(), rest);
            let i = choose|i: int| 0 <= i < aliases_table().len() && #[trigger] aliases_table()[i] == (rest, v);
            lemma_alias(i);
            lemma_alias_target_not_alias(v);
            lemma_no_modifier_at_start(v);
        },
        None => {
            let n = low.len() - rest.len();
            assert forall|k: int| 0 <= k < rest.len() implies (#[trigger] rest[k] as u32) < 0x80 && !('A' <= rest[k] <= 'Z') by {
                assert(rest[k] == low[n + k]);
                assert(low[n + k] == ascii_lower(t[n + k]));
            }
            assert(rest.len() > 0) by {
                if names_has(names_table(), rest) {
                    let i = choose|i: int| 0 <= i < names_table().len() && names_table()[i].1 == rest;
                    lemma_name(i);
                }
            }
            assert(rest.last() == low.last());
            assert(low.last() == ascii_lower(t.last()));
            if rest.len() != 1 && !is_function_key(rest) {
                let i = choose|i: int| 0 <= i < names_table().len() && names_table()[i].1 == rest;
                lemma_name(i);
            }
        },
    }
    lemma_spelled_plain(mods, key);
    lemma_trimmed_plain(c);
    assert(c.map_values(|ch: char| ascii_lower(ch)) =~= c);
    assert(lowercase(trimmed(c)) == c);
    lemma_spelled_reads_back(mods, key, mac);
}

proof fn lemma_trim_end_after(p: Seq<char>, x: Seq<char>)
    requires
        p.len() > 0,
        !is_white(p.last()),
    ensures
        trim_end(p + x) == p + trim_end(x),
    decreases x.len(),
{
    if x.len() == 0 {
        assert(p + x =~= p);
        assert(p + trim_end(x) =~= p);
    } else {
        assert((p + x).last() == x.last());
        if is_white(x.last()) {
            assert((p + x).drop_last() =~= p + x.drop_last());
            lemma_trim_end_after(p, x.drop_last());
        }
    }
}

/// A modifier's spelling and what follows it, trimmed and in lower case:
/// the spelling, then what follows with its trailing white space dropped
/// and its capitals made small.
proof fn lemma_spelling_lowered(j: int, x: Seq<char>)
    requires
        0 <= j < 12,
        all_ascii(x),
    ensures
        lowercase(trimmed(modifier_table()[j] + x))
            == modifier_table()[j] + trim_end(x).map_values(|c: char| ascii_lower(c)),
{
    lemma_modifier(j);
    let p = modifier_table()[j];
    let s = p + x;
    assert(s[0] == p[0]);
    assert(trim_start(s) == s);
    lemma_trim_end_after(p, x);
    lemma_trim_end_head(x);
    let y = trim_end(x);
    assert forall|k: int| 0 <= k < y.len() implies (#[trigger] y[k] as u32) < 0x80 by {
        assert(y[k] == x[k]);
    }
    assert(all_ascii(p + y));
    assert((p + y).map_values(|c: char| ascii_lower(c)) =~= p + y.map_values(|c: char| ascii_lower(c)));
}

/// Two spellings that set the same modifier read whatever follows them as
/// the same chord.
proof fn lemma_same_modifier(i: int, j: int, x: Seq<char>, mac: bool)
    requires
        0 <= i < 12,
        0 <= j < 12,
        all_ascii(x),
        with_modifier(no_mods(), i, mac) == with_modifier(no_mods(), j, mac),
    ensures
        chord_of(modifier_table()[i] + x, mac) == chord_of(modifier_table()[j] + x, mac),
{
    let t = modifier_table();
    let y = trim_end(x).map_values(|c: char| ascii_lower(c));
    lemma_spelling_lowered(i, x);
    lemma_peel_modifier(y, i, no_mods(), mac);
    lemma_spelling_lowered(j, x);
    lemma_peel_modifier(y, j, no_mods(), mac);
    lemma_modifier(i);
    lemma_modifier(j);
    assert((t[i] + y).len() > 0 && (t[j] + y).len() > 0);
}

/// Every spelling of a modifier sets the modifier it names, and nothing
/// else: Option and Opt are Alt; Command, Cmd, Super, Meta and Win are the
/// app's own modifier; Control is Ctrl, which everywhere but on a Mac is
/// the app's own modifier too. Whatever follows the spelling, the chord is
/// read the same.
pub proof fn law_each_modifier_spelling_names_its_modifier(x: Seq<char>, mac: bool)
    requires
        all_ascii(x),
    ensures
        chord_of("option+"@ + x, mac) == chord_of("alt+"@ + x, mac),
        chord_of("opt+"@ + x, mac) == chord_of("alt+"@ + x, mac),
        chord_of("command+"@ + x, mac) == chord_of("mod+"@ + x, mac),
        chord_of("cmd+"@ + x, mac) == chord_of("mod+"@ + x, mac),
        chord_of("super+"@ + x, mac) == chord_of("mod+"@ + x, mac),
        chord_of("meta+"@ + x, mac) == chord_of("mod+"@ + x, mac),
        chord_of("win+"@ + x, mac) == chord_of("mod+"@ + x, mac),
        chord_of("control+"@ + x, mac) == chord_of("ctrl+"@ + x, mac),
        !mac ==> chord_of("ctrl+"@ + x, mac) == chord_of("mod+"@ + x, mac),
{
    lemma_same_modifier(2, 9, x, mac);
    lemma_same_modifier(8, 9, x, mac);
    lemma_same_modifier(0, 10, x, mac);
    lemma_same_modifier(6, 10, x, mac);
    lemma_same_modifier(3, 10, x, mac);
    lemma_same_modifier(5, 10, x, mac);
    lemma_same_modifier(11, 10, x, mac);
    lemma_same_modifier(1, 7, x, mac);
    if !mac {
        lemma_same_modifier(7, 10, x, mac);
    }
}

/// A modifier and a letter read as that modifier and that letter: Alt and
/// Shift as themselves, the app's own modifier as `mod`, and Ctrl as `ctrl`
/// on a Mac and as `mod` elsewhere.
pub proof fn law_a_modifier_and_a_letter(c: char, mac: bool)
    requires
        'a' <= c <= 'z',
    ensures
        chord_of("alt+"@ + seq![c], mac) == Some("alt+"@ + seq![c]),
        chord_of("shift+"@ + seq![c], mac) == Some("shift+"@ + seq![c]),
        chord_of("mod+"@ + seq![c], mac) == Some("mod+"@ + seq![c]),
        chord_of("ctrl+"@ + seq![c], mac) == Some((if mac { "ctrl+"@ } else { "mod+"@ }) + seq![c]),
{
    let t = modifier_table();
    let x = seq![c];
    assert(all_ascii(x));
    assert(trim_end(x) == x);
    let y = x.map_values(|ch: char| ascii_lower(ch));
    assert(y =~= x);
    assert(no_later_plus(x));
    lemma_no_modifier_at_start(x);
    lemma_lookup_found(aliases_table(), x);
    if lookup(aliases_table(), x) is Some {
        let w = lookup(aliases_table(), x)->0;
        let i = choose|i: int| 0 <= i < aliases_table().len() && #[trigger] aliases_table()[i] == (x, w);
        lemma_alias(i);
    }
    lemma_spelling_lowered(9, x);
    lemma_peel_modifier(x, 9, no_mods(), mac);
    lemma_spelling_lowered(4, x);
    lemma_peel_modifier(x, 4, no_mods(), mac);
    lemma_spelling_lowered(10, x);
    lemma_peel_modifier(x, 10, no_mods(), mac);
    lemma_spelling_lowered(7, x);
    lemma_peel_modifier(x, 7, no_mods(), mac);
    assert(spelled(with_modifier(no_mods(), 9, mac), x) =~= "alt+"@ + x);
    assert(spelled(with_modifier(no_mods(), 4, mac), x) =~= "shift+"@ + x);
    assert(spelled(with_modifier(no_mods(), 10, mac), x) =~= "mod+"@ + x);
    assert(spelled(with_modifier(no_mods(), 7, mac), x) =~= (if mac { "ctrl+"@ } else { "mod+"@ }) + x);
}

} // verus!
