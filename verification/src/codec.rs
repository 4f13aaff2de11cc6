//! Canonical serialization of entry lists.
//!
//! The shared record's text field holds one line per entry: the key,
//! the principal name and the comma-separated group names, the fields
//! separated by a tab and the line closed by a newline.  The grammar
//! is strict so that the text form of a list is unique: decoding a
//! well-formed text and encoding the result gives the text back
//! byte for byte, which the optimistic compare-and-swap needs in
//! order not to fail spuriously on no-op passes.

use vstd::prelude::*;

use crate::entry::ENTRY_SEP;
use crate::entry::FIELD_SEP;
use crate::entry::GROUP_SEP;
use crate::entry::MapRoleSpec;
use crate::entry::MapRoleView;
use crate::entry::entries_ok;
use crate::entry::entries_view;
use crate::entry::entry_ok;
use crate::entry::field_ok;
use crate::entry::group_ok;

verus! {

/// The shared record's field was not a well-formed entry list.
#[derive(Clone, Copy, Debug, PartialEq, Eq, Structural)]
pub enum DecodeError {
    Malformed,
}

/// Index of the first separator byte (field or entry), or the length.
pub open spec fn first_break(s: Seq<u8>) -> int
    decreases s.len(),
{
    if s.len() == 0 {
        0
    } else if s[0] == FIELD_SEP || s[0] == ENTRY_SEP {
        0
    } else {
        1 + first_break(s.drop_first())
    }
}

/// Index of the first group separator byte, or the length.
pub open spec fn first_comma(s: Seq<u8>) -> int
    decreases s.len(),
{
    if s.len() == 0 {
        0
    } else if s[0] == GROUP_SEP {
        0
    } else {
        1 + first_comma(s.drop_first())
    }
}

pub proof fn lemma_first_break_props(s: Seq<u8>)
    ensures
        0 <= first_break(s) <= s.len(),
        forall|j: int| 0 <= j < first_break(s) ==> s[j] != FIELD_SEP && s[j] != ENTRY_SEP,
        first_break(s) < s.len() ==> s[first_break(s)] == FIELD_SEP || s[first_break(s)]
            == ENTRY_SEP,
    decreases s.len(),
{
    if s.len() == 0 {
    } else if s[0] == FIELD_SEP || s[0] == ENTRY_SEP {
    } else {
        lemma_first_break_props(s.drop_first());
        assert forall|j: int| 0 <= j < first_break(s) implies s[j] != FIELD_SEP && s[j]
            != ENTRY_SEP by {
            if j > 0 {
                assert(s[j] == s.drop_first()[j - 1]);
            }
        }
    }
}

pub proof fn lemma_first_break_at(s: Seq<u8>, k: int)
    requires
        0 <= k <= s.len(),
        forall|j: int| 0 <= j < k ==> s[j] != FIELD_SEP && s[j] != ENTRY_SEP,
        k < s.len() ==> s[k] == FIELD_SEP || s[k] == ENTRY_SEP,
    ensures
        first_break(s) == k,
    decreases s.len(),
{
    if s.len() == 0 {
    } else if k == 0 {
    } else {
        assert(forall|j: int| 0 <= j < s.drop_first().len() ==> s.drop_first()[j] == s[j + 1]);
        lemma_first_break_at(s.drop_first(), k - 1);
    }
}

pub proof fn lemma_first_comma_props(s: Seq<u8>)
    ensures
        0 <= first_comma(s) <= s.len(),
        forall|j: int| 0 <= j < first_comma(s) ==> s[j] != GROUP_SEP,
        first_comma(s) < s.len() ==> s[first_comma(s)] == GROUP_SEP,
    decreases s.len(),
{
    if s.len() == 0 {
    } else if s[0] == GROUP_SEP {
    } else {
        lemma_first_comma_props(s.drop_first());
        assert forall|j: int| 0 <= j < first_comma(s) implies s[j] != GROUP_SEP by {
            if j > 0 {
                assert(s[j] == s.drop_first()[j - 1]);
            }
        }
    }
}

pub proof fn lemma_first_comma_at(s: Seq<u8>, k: int)
    requires
        0 <= k <= s.len(),
        forall|j: int| 0 <= j < k ==> s[j] != GROUP_SEP,
        k < s.len() ==> s[k] == GROUP_SEP,
    ensures
        first_comma(s) == k,
    decreases s.len(),
{
    if s.len() == 0 {
    } else if k == 0 {
    } else {
        assert(forall|j: int| 0 <= j < s.drop_first().len() ==> s.drop_first()[j] == s[j + 1]);
        lemma_first_comma_at(s.drop_first(), k - 1);
    }
}

/// Serialized form of a group list: the names joined by the separator.
pub open spec fn encode_groups(gs: Seq<Seq<u8>>) -> Seq<u8>
    decreases gs.len(),
{
    if gs.len() == 0 {
        Seq::empty()
    } else if gs.len() == 1 {
        gs[0]
    } else {
        gs[0] + seq![GROUP_SEP] + encode_groups(gs.drop_first())
    }
}

/// Serialized form of one entry: its line, newline included.
pub open spec fn encode_entry(e: MapRoleView) -> Seq<u8> {
    e.rolearn + seq![FIELD_SEP] + e.username + seq![FIELD_SEP] + encode_groups(e.groups) + seq![
        ENTRY_SEP,
    ]
}

/// Serialized form of an entry list: its lines in order.
pub open spec fn encode_entries(es: Seq<MapRoleView>) -> Seq<u8>
    decreases es.len(),
{
    if es.len() == 0 {
        Seq::empty()
    } else {
        encode_entry(es[0]) + encode_entries(es.drop_first())
    }
}

/// Parse a non-empty group list out of the bytes between two field
/// separators.  Fails on an empty name, so that the accepted text is
/// exactly the encoded form of the result.
pub open spec fn parse_groups(g: Seq<u8>) -> Option<Seq<Seq<u8>>>
    decreases g.len(),
{
    if g.len() == 0 {
        Option::None
    } else {
        let k = first_comma(g);
        if k <= 0 {
            Option::None
        } else if k >= g.len() {
            Option::Some(seq![g])
        } else {
            match parse_groups(g.subrange(k + 1, g.len() as int)) {
                Option::Some(rest) => Option::Some(seq![g.subrange(0, k)] + rest),
                Option::None => Option::None,
            }
        }
    }
}

/// Parse one entry off the front of the text; give back the entry and
/// the bytes that follow its line.
pub open spec fn parse_entry(s: Seq<u8>) -> Option<(MapRoleView, Seq<u8>)> {
    let i = first_break(s);
    if !(0 <= i < s.len()) || s[i] != FIELD_SEP {
        Option::None
    } else {
        let rolearn = s.subrange(0, i);
        let s1 = s.subrange(i + 1, s.len() as int);
        let j = first_break(s1);
        if !(0 <= j < s1.len()) || s1[j] != FIELD_SEP {
            Option::None
        } else {
            let username = s1.subrange(0, j);
            let s2 = s1.subrange(j + 1, s1.len() as int);
            let k = first_break(s2);
            if !(0 <= k < s2.len()) || s2[k] != ENTRY_SEP {
                Option::None
            } else {
                let gpart = s2.subrange(0, k);
                let rest = s2.subrange(k + 1, s2.len() as int);
                if gpart.len() == 0 {
                    Option::Some(
                        (MapRoleView { rolearn, username, groups: Seq::empty() }, rest),
                    )
                } else {
                    match parse_groups(gpart) {
                        Option::Some(gs) => Option::Some(
                            (MapRoleView { rolearn, username, groups: gs }, rest),
                        ),
                        Option::None => Option::None,
                    }
                }
            }
        }
    }
}

/// Parse a whole text into its entry list, or nothing where the text
/// is not the encoding of any well-formed list.
pub open spec fn parse_entries(s: Seq<u8>) -> Option<Seq<MapRoleView>>
    decreases s.len(),
{
    if s.len() == 0 {
        Option::Some(Seq::empty())
    } else {
        match parse_entry(s) {
            Option::None => Option::None,
            Option::Some((e, rest)) => if rest.len() < s.len() {
                match parse_entries(rest) {
                    Option::None => Option::None,
                    Option::Some(es) => Option::Some(seq![e] + es),
                }
            } else {
                Option::None
            },
        }
    }
}

/// The bytes of an encoded group list hold no field or entry separator.
proof fn lemma_encode_groups_clean(gs: Seq<Seq<u8>>)
    requires
        forall|i: int| 0 <= i < gs.len() ==> group_ok(#[trigger] gs[i]),
    ensures
        forall|j: int|
            0 <= j < encode_groups(gs).len() ==> encode_groups(gs)[j] != FIELD_SEP
                && encode_groups(gs)[j] != ENTRY_SEP,
        gs.len() >= 1 ==> encode_groups(gs).len() >= 1,
    decreases gs.len(),
{
    if gs.len() == 0 {
    } else if gs.len() == 1 {
        assert(group_ok(gs[0]));
    } else {
        assert(forall|i: int|
            0 <= i < gs.drop_first().len() ==> gs.drop_first()[i] == gs[i + 1]);
        lemma_encode_groups_clean(gs.drop_first());
        assert(group_ok(gs[0]));
    }
}

/// Parsing a clean group part yields well-formed names that join back
/// to exactly the bytes parsed.
proof fn lemma_parse_groups_sound(g: Seq<u8>)
    requires
        parse_groups(g) is Some,
        forall|j: int| 0 <= j < g.len() ==> g[j] != FIELD_SEP && g[j] != ENTRY_SEP,
    ensures
        parse_groups(g).unwrap().len() >= 1,
        forall|i: int|
            0 <= i < parse_groups(g).unwrap().len() ==> group_ok(
                #[trigger] parse_groups(g).unwrap()[i],
            ),
        encode_groups(parse_groups(g).unwrap()) == g,
    decreases g.len(),
{
    let k = first_comma(g);
    lemma_first_comma_props(g);
    if k >= g.len() {
        let gs = seq![g];
        assert(group_ok(g));
        assert(encode_groups(gs) == g);
    } else {
        let tail = g.subrange(k + 1, g.len() as int);
        assert(forall|j: int| 0 <= j < tail.len() ==> tail[j] == g[k + 1 + j]);
        lemma_parse_groups_sound(tail);
        let rest = parse_groups(tail).unwrap();
        let g0 = g.subrange(0, k);
        let gs = seq![g0] + rest;
        assert(group_ok(g0));
        assert(forall|i: int| 0 <= i < gs.len() ==> group_ok(#[trigger] gs[i])) by {
            assert(forall|i: int| 1 <= i < gs.len() ==> gs[i] == rest[i - 1]);
        }
        assert(gs.len() >= 2);
        assert(gs.drop_first() =~= rest);
        assert(gs[0] == g0);
        assert(encode_groups(gs) =~= g) by {
            assert(g[k] == GROUP_SEP);
            assert(encode_groups(gs) == g0 + seq![GROUP_SEP] + encode_groups(rest));
            assert(encode_groups(rest) == tail);
        }
    }
}

/// Parsing the encoding of a well-formed group list gives the list back.
proof fn lemma_parse_groups_complete(gs: Seq<Seq<u8>>)
    requires
        gs.len() >= 1,
        forall|i: int| 0 <= i < gs.len() ==> group_ok(#[trigger] gs[i]),
    ensures
        parse_groups(encode_groups(gs)) == Option::<Seq<Seq<u8>>>::Some(gs),
    decreases gs.len(),
{
    let e = encode_groups(gs);
    if gs.len() == 1 {
        assert(group_ok(gs[0]));
        lemma_first_comma_at(e, e.len() as int);
        assert(parse_groups(e) == Option::<Seq<Seq<u8>>>::Some(seq![e]));
        assert(seq![e] =~= gs);
    } else {
        let g0 = gs[0];
        let rest = gs.drop_first();
        assert(forall|i: int| 0 <= i < rest.len() ==> rest[i] == gs[i + 1]);
        let tail = encode_groups(rest);
        lemma_encode_groups_clean(rest);
        assert(group_ok(g0));
        assert(e == g0 + seq![GROUP_SEP] + tail);
        let k = g0.len() as int;
        assert(e[k] == GROUP_SEP);
        assert(forall|j: int| 0 <= j < k ==> e[j] == g0[j]);
        lemma_first_comma_at(e, k);
        assert(1 <= k < e.len());
        assert(e.subrange(0, k) =~= g0);
        assert(e.subrange(k + 1, e.len() as int) =~= tail);
        lemma_parse_groups_complete(rest);
        assert(parse_groups(e) == Option::<Seq<Seq<u8>>>::Some(seq![g0] + rest));
        assert(seq![g0] + rest =~= gs);
    }
}

/// An entry parsed off the front of a text is well formed, and the
/// text is exactly its encoding followed by the remainder.
proof fn lemma_parse_entry_sound(s: Seq<u8>)
    requires
        parse_entry(s) is Some,
    ensures
        entry_ok(parse_entry(s).unwrap().0),
        encode_entry(parse_entry(s).unwrap().0) + parse_entry(s).unwrap().1 == s,
        parse_entry(s).unwrap().1.len() < s.len(),
{
    let i = first_break(s);
    lemma_first_break_props(s);
    let rolearn = s.subrange(0, i);
    let s1 = s.subrange(i + 1, s.len() as int);
    assert(forall|j: int| 0 <= j < s1.len() ==> s1[j] == s[i + 1 + j]);
    let j = first_break(s1);
    lemma_first_break_props(s1);
    let username = s1.subrange(0, j);
    let s2 = s1.subrange(j + 1, s1.len() as int);
    assert(forall|m: int| 0 <= m < s2.len() ==> s2[m] == s1[j + 1 + m]);
    let k = first_break(s2);
    lemma_first_break_props(s2);
    let gpart = s2.subrange(0, k);
    let rest = s2.subrange(k + 1, s2.len() as int);
    assert(field_ok(rolearn));
    assert(field_ok(username));
    let e = parse_entry(s).unwrap().0;
    if gpart.len() == 0 {
        assert(e.groups =~= Seq::<Seq<u8>>::empty());
        assert(encode_groups(e.groups) =~= gpart);
    } else {
        assert(forall|m: int| 0 <= m < gpart.len() ==> gpart[m] == s2[m]);
        lemma_parse_groups_sound(gpart);
        assert(encode_groups(e.groups) == gpart);
    }
    assert(encode_entry(e) + rest =~= s) by {
        assert(s[i] == FIELD_SEP);
        assert(s1[j] == FIELD_SEP);
        assert(s2[k] == ENTRY_SEP);
    }
}

/// Parsing recovers an entry from its encoding, whatever follows it.
proof fn lemma_parse_entry_complete(e: MapRoleView, rest: Seq<u8>)
    requires
        entry_ok(e),
    ensures
        parse_entry(encode_entry(e) + rest) == Option::<(MapRoleView, Seq<u8>)>::Some((e, rest)),
{
    let gbytes = encode_groups(e.groups);
    lemma_encode_groups_clean(e.groups);
    let s = encode_entry(e) + rest;
    let i = e.rolearn.len() as int;
    assert(forall|m: int| 0 <= m < i ==> s[m] == e.rolearn[m]);
    assert(s[i] == FIELD_SEP);
    lemma_first_break_at(s, i);
    assert(s.subrange(0, i) =~= e.rolearn);
    let s1 = s.subrange(i + 1, s.len() as int);
    assert(s1 =~= e.username + seq![FIELD_SEP] + gbytes + seq![ENTRY_SEP] + rest);
    let j = e.username.len() as int;
    assert(forall|m: int| 0 <= m < j ==> s1[m] == e.username[m]);
    assert(s1[j] == FIELD_SEP);
    lemma_first_break_at(s1, j);
    assert(s1.subrange(0, j) =~= e.username);
    let s2 = s1.subrange(j + 1, s1.len() as int);
    assert(s2 =~= gbytes + seq![ENTRY_SEP] + rest);
    let k = gbytes.len() as int;
    assert(forall|m: int| 0 <= m < k ==> s2[m] == gbytes[m]);
    assert(s2[k] == ENTRY_SEP);
    lemma_first_break_at(s2, k);
    assert(s2.subrange(0, k) =~= gbytes);
    assert(s2.subrange(k + 1, s2.len() as int) =~= rest);
    if e.groups.len() == 0 {
        assert(gbytes.len() == 0);
        assert(parse_entry(s).unwrap().0 =~= e) by {
            assert(parse_entry(s).unwrap().0.groups =~= e.groups);
        }
    } else {
        lemma_parse_groups_complete(e.groups);
    }
}

/// Any text the parser accepts is exactly the encoding of the
/// well-formed list it yields: decoding, then encoding, restores the
/// text byte for byte.
pub proof fn lemma_parse_entries_sound(t: Seq<u8>)
    requires
        parse_entries(t) is Some,
    ensures
        entries_ok(parse_entries(t).unwrap()),
        encode_entries(parse_entries(t).unwrap()) == t,
    decreases t.len(),
{
    if t.len() == 0 {
        assert(encode_entries(parse_entries(t).unwrap()) =~= t);
    } else {
        lemma_parse_entry_sound(t);
        let e = parse_entry(t).unwrap().0;
        let rest = parse_entry(t).unwrap().1;
        lemma_parse_entries_sound(rest);
        let tail = parse_entries(rest).unwrap();
        let es = parse_entries(t).unwrap();
        assert(es == seq![e] + tail);
        assert(forall|i: int| 1 <= i < es.len() ==> es[i] == tail[i - 1]);
        assert(entries_ok(es));
        assert(es.len() >= 1);
        assert(es[0] == e);
        assert(es.drop_first() =~= tail);
        assert(encode_entries(es) == encode_entry(e) + encode_entries(tail));
        assert(encode_entries(es) =~= t);
    }
}

/// Encoding a well-formed list and parsing the result gives the list
/// back: decoding is a left inverse of encoding.
pub proof fn lemma_parse_entries_complete(es: Seq<MapRoleView>)
    requires
        entries_ok(es),
    ensures
        parse_entries(encode_entries(es)) == Option::<Seq<MapRoleView>>::Some(es),
    decreases es.len(),
{
    if es.len() == 0 {
    } else {
        let e = es[0];
        let tail = es.drop_first();
        assert(forall|i: int| 0 <= i < tail.len() ==> tail[i] == es[i + 1]);
        assert(entry_ok(e));
        let restbytes = encode_entries(tail);
        let t = encode_entries(es);
        assert(t == encode_entry(e) + restbytes);
        lemma_parse_entry_complete(e, restbytes);
        assert(t.len() >= 1) by {
            assert(encode_entry(e).len() >= 1);
        }
        lemma_parse_entries_complete(tail);
        assert(parse_entries(t) == Option::<Seq<MapRoleView>>::Some(seq![e] + tail));
        assert(seq![e] + tail =~= es);
    }
}

proof fn lemma_encode_groups_push(gs: Seq<Seq<u8>>, g: Seq<u8>)
    ensures
        encode_groups(gs.push(g)) == if gs.len() == 0 {
            g
        } else {
            encode_groups(gs) + seq![GROUP_SEP] + g
        },
    decreases gs.len(),
{
    if gs.len() == 0 {
        assert(gs.push(g)[0] == g);
        assert(encode_groups(gs.push(g)) == g);
    } else if gs.len() == 1 {
        assert(gs.push(g).drop_first() =~= seq![g]);
        assert(encode_groups(seq![g]) == g);
        assert(encode_groups(gs.push(g)) == gs[0] + seq![GROUP_SEP] + g);
    } else {
        assert(gs.push(g).drop_first() =~= gs.drop_first().push(g));
        lemma_encode_groups_push(gs.drop_first(), g);
        assert(encode_groups(gs.push(g)) =~= encode_groups(gs) + seq![GROUP_SEP] + g);
    }
}

proof fn lemma_encode_entries_push(es: Seq<MapRoleView>, e: MapRoleView)
    ensures
        encode_entries(es.push(e)) == encode_entries(es) + encode_entry(e),
    decreases es.len(),
{
    if es.len() == 0 {
        assert(es.push(e).drop_first() =~= Seq::<MapRoleView>::empty());
        assert(es.push(e)[0] == e);
        assert(encode_entries(es.push(e)) == encode_entry(e) + encode_entries(
            es.push(e).drop_first(),
        ));
        assert(encode_entries(es.push(e)) =~= encode_entries(es) + encode_entry(e));
    } else {
        assert(es.push(e).drop_first() =~= es.drop_first().push(e));
        lemma_encode_entries_push(es.drop_first(), e);
        assert(es.push(e)[0] == es[0]);
        assert(encode_entries(es.push(e)) == encode_entry(es[0]) + encode_entries(
            es.drop_first().push(e),
        ));
        assert(encode_entries(es) == encode_entry(es[0]) + encode_entries(es.drop_first()));
        assert(encode_entries(es.push(e)) =~= encode_entries(es) + encode_entry(e));
    }
}

/// Append the bytes of `src` to `out`.
fn push_bytes(out: &mut Vec<u8>, src: &Vec<u8>)
    ensures
        final(out)@ == old(out)@ + src@,
{
    let n: usize = src.len();
    let mut i: usize = 0;
    while i < n
        invariant
            i <= n,
            n == src.len(),
            out@ == old(out)@ + src@.take(i as int),
        decreases n - i,
    {
        proof {
            assert(src@.take(i as int).push(src@[i as int]) =~= src@.take(i + 1));
        }
        out.push(src[i]);
        i = i + 1;
    }
    proof {
        assert(src@.take(n as int) =~= src@);
    }
}

/// Append the line of one entry to `out`.
fn push_entry(out: &mut Vec<u8>, e: &MapRoleSpec)
    ensures
        final(out)@ == old(out)@ + encode_entry(e@),
{
    push_bytes(out, &e.rolearn);
    out.push(FIELD_SEP);
    push_bytes(out, &e.username);
    out.push(FIELD_SEP);
    let ghost base = out@;
    let n: usize = e.groups.len();
    let mut j: usize = 0;
    while j < n
        invariant
            j <= n,
            n == e.groups.len(),
            out@ == base + encode_groups(e@.groups.take(j as int)),
        decreases n - j,
    {
        if j > 0 {
            out.push(GROUP_SEP);
        }
        push_bytes(out, &e.groups[j]);
        proof {
            let gv = e@.groups;
            lemma_encode_groups_push(gv.take(j as int), gv[j as int]);
            assert(gv.take(j as int).push(gv[j as int]) =~= gv.take(j + 1));
            assert(out@ =~= base + encode_groups(gv.take(j + 1)));
        }
        j = j + 1;
    }
    out.push(ENTRY_SEP);
    proof {
        assert(e@.groups.take(n as int) =~= e@.groups);
        assert(out@ =~= old(out)@ + encode_entry(e@));
    }
}

/// Serialize an entry list into its canonical text.
pub fn encode(entries: &Vec<MapRoleSpec>) -> (r: Vec<u8>)
    ensures
        r@ == encode_entries(entries_view(entries@)),
{
    let mut out: Vec<u8> = Vec::new();
    let n: usize = entries.len();
    let mut i: usize = 0;
    while i < n
        invariant
            i <= n,
            n == entries.len(),
            out@ == encode_entries(entries_view(entries@).take(i as int)),
        decreases n - i,
    {
        push_entry(&mut out, &entries[i]);
        proof {
            let ev = entries_view(entries@);
            lemma_encode_entries_push(ev.take(i as int), ev[i as int]);
            assert(ev.take(i as int).push(ev[i as int]) =~= ev.take(i + 1));
        }
        i = i + 1;
    }
    proof {
        assert(entries_view(entries@).take(n as int) =~= entries_view(entries@));
    }
    out
}

/// Two well-formed lists with the same text are the same list: an
/// entry list has exactly one canonical serialization.
pub proof fn lemma_encode_injective(a: Seq<MapRoleView>, b: Seq<MapRoleView>)
    requires
        entries_ok(a),
        entries_ok(b),
        encode_entries(a) == encode_entries(b),
    ensures
        a == b,
{
    lemma_parse_entries_complete(a);
    lemma_parse_entries_complete(b);
}

/// The mathematical value of a list of group names.
pub open spec fn groups_view(gs: Seq<Vec<u8>>) -> Seq<Seq<u8>> {
    gs.map_values(|g: Vec<u8>| g@)
}

/// A parsed prefix glued onto the outcome of parsing the remainder.
pub open spec fn glue_entries(
    pre: Seq<MapRoleView>,
    o: Option<Seq<MapRoleView>>,
) -> Option<Seq<MapRoleView>> {
    match o {
        Option::Some(t) => Option::Some(pre + t),
        Option::None => Option::None,
    }
}

/// As [`glue_entries`], for group lists.
pub open spec fn glue_groups(
    pre: Seq<Seq<u8>>,
    o: Option<Seq<Seq<u8>>>,
) -> Option<Seq<Seq<u8>>> {
    match o {
        Option::Some(t) => Option::Some(pre + t),
        Option::None => Option::None,
    }
}

/// Copy of the bytes of `text` between two positions.
fn sub_bytes(text: &Vec<u8>, a: usize, b: usize) -> (r: Vec<u8>)
    requires
        a <= b <= text.len(),
    ensures
        r@ == text@.subrange(a as int, b as int),
{
    let mut r: Vec<u8> = Vec::new();
    let mut i: usize = a;
    while i < b
        invariant
            a <= i <= b <= text.len(),
            r@ == text@.subrange(a as int, i as int),
        decreases b - i,
    {
        proof {
            assert(text@.subrange(a as int, i as int).push(text@[i as int]) =~= text@.subrange(
                a as int,
                i + 1,
            ));
        }
        r.push(text[i]);
        i = i + 1;
    }
    r
}

/// First position at or after `from` holding a field or entry separator.
fn scan_break(text: &Vec<u8>, from: usize) -> (r: usize)
    requires
        from <= text.len(),
    ensures
        from <= r <= text.len(),
        forall|j: int| from <= j < r ==> text@[j] != FIELD_SEP && text@[j] != ENTRY_SEP,
        r < text.len() ==> (text@[r as int] == FIELD_SEP || text@[r as int] == ENTRY_SEP),
{
    let n: usize = text.len();
    let mut i: usize = from;
    while i < n
        invariant
            from <= i <= n,
            n == text.len(),
            forall|j: int| from <= j < i ==> text@[j] != FIELD_SEP && text@[j] != ENTRY_SEP,
        decreases n - i,
    {
        if text[i] == FIELD_SEP || text[i] == ENTRY_SEP {
            return i;
        }
        i = i + 1;
    }
    n
}

/// First position in `from..to` holding a group separator, or `to`.
fn scan_comma(text: &Vec<u8>, from: usize, to: usize) -> (r: usize)
    requires
        from <= to <= text.len(),
    ensures
        from <= r <= to,
        forall|j: int| from <= j < r ==> text@[j] != GROUP_SEP,
        r < to ==> text@[r as int] == GROUP_SEP,
{
    let mut i: usize = from;
    while i < to
        invariant
            from <= i <= to <= text.len(),
            forall|j: int| from <= j < i ==> text@[j] != GROUP_SEP,
        decreases to - i,
    {
        if text[i] == GROUP_SEP {
            return i;
        }
        i = i + 1;
    }
    to
}

proof fn lemma_scan_to_first_break(t: Seq<u8>, a: int, r: int, n: int)
    requires
        0 <= a <= r <= n == t.len(),
        forall|j: int| a <= j < r ==> t[j] != FIELD_SEP && t[j] != ENTRY_SEP,
        r < n ==> (t[r] == FIELD_SEP || t[r] == ENTRY_SEP),
    ensures
        first_break(t.subrange(a, n)) == r - a,
{
    let s = t.subrange(a, n);
    assert forall|j: int| 0 <= j < r - a implies s[j] != FIELD_SEP && s[j] != ENTRY_SEP by {
        assert(s[j] == t[a + j]);
    }
    lemma_first_break_at(s, r - a);
}

proof fn lemma_scan_to_first_comma(t: Seq<u8>, a: int, r: int, b: int)
    requires
        0 <= a <= r <= b <= t.len(),
        forall|j: int| a <= j < r ==> t[j] != GROUP_SEP,
        r < b ==> t[r] == GROUP_SEP,
    ensures
        first_comma(t.subrange(a, b)) == r - a,
{
    let s = t.subrange(a, b);
    assert forall|j: int| 0 <= j < r - a implies s[j] != GROUP_SEP by {
        assert(s[j] == t[a + j]);
    }
    lemma_first_comma_at(s, r - a);
}

/// Parse the group names between the second field separator and the
/// end of the line.
#[verifier::loop_isolation(false)]
fn parse_group_list(text: &Vec<u8>, g_start: usize, k_end: usize) -> (r: Result<
    Vec<Vec<u8>>,
    DecodeError,
>)
    requires
        g_start < k_end <= text.len(),
    ensures
        match r {
            Ok(gs) => parse_groups(text@.subrange(g_start as int, k_end as int))
                == Option::<Seq<Seq<u8>>>::Some(groups_view(gs@)),
            Err(_) => parse_groups(text@.subrange(g_start as int, k_end as int)) is None,
        },
{
    let ghost gpart = text@.subrange(g_start as int, k_end as int);
    let mut groups: Vec<Vec<u8>> = Vec::new();
    let mut cur = g_start;
    proof {
        assert(groups_view(groups@) =~= Seq::<Seq<u8>>::empty());
        if parse_groups(gpart) is Some {
            assert(groups_view(groups@) + parse_groups(gpart).unwrap() =~= parse_groups(
                gpart,
            ).unwrap());
        }
    }
    while cur < k_end
        invariant
            g_start <= cur <= k_end,
            cur < k_end ==> parse_groups(gpart) == glue_groups(
                groups_view(groups@),
                parse_groups(text@.subrange(cur as int, k_end as int)),
            ),
            cur == k_end ==> parse_groups(gpart) == Option::<Seq<Seq<u8>>>::Some(
                groups_view(groups@),
            ),
        decreases k_end - cur,
    {
        let ghost gs_old = groups_view(groups@);
        let ghost rem = text@.subrange(cur as int, k_end as int);
        let c = scan_comma(text, cur, k_end);
        proof {
            lemma_scan_to_first_comma(text@, cur as int, c as int, k_end as int);
        }
        if c == cur {
            proof {
                assert(parse_groups(rem) is None);
            }
            return Err(DecodeError::Malformed);
        }
        let g = sub_bytes(text, cur, c);
        groups.push(g);
        proof {
            assert(groups_view(groups@) =~= gs_old.push(text@.subrange(cur as int, c as int)));
        }
        if c == k_end {
            proof {
                assert(first_comma(rem) == rem.len());
                assert(rem.len() >= 1);
                assert(parse_groups(rem) == Option::<Seq<Seq<u8>>>::Some(seq![rem]));
                assert(gs_old + seq![rem] =~= groups_view(groups@));
            }
            cur = k_end;
        } else {
            proof {
                let k = first_comma(rem);
                assert(k == c - cur);
                assert(1 <= k < rem.len());
                assert(rem.subrange(0, k) =~= text@.subrange(cur as int, c as int));
                assert(rem.subrange(k + 1, rem.len() as int) =~= text@.subrange(
                    c + 1,
                    k_end as int,
                ));
                let o = parse_groups(text@.subrange(c + 1, k_end as int));
                if o is Some {
                    assert(parse_groups(rem) == Option::<Seq<Seq<u8>>>::Some(
                        seq![rem.subrange(0, k)] + o.unwrap(),
                    ));
                    assert(gs_old + (seq![rem.subrange(0, k)] + o.unwrap()) =~= groups_view(
                        groups@,
                    ) + o.unwrap());
                } else {
                    assert(parse_groups(rem) is None);
                }
            }
            if c + 1 == k_end {
                proof {
                    assert(text@.subrange(c + 1, k_end as int).len() == 0);
                    assert(parse_groups(text@.subrange(c + 1, k_end as int)) is None);
                }
                return Err(DecodeError::Malformed);
            }
            cur = c + 1;
        }
    }
    Ok(groups)
}

/// Parse one entry starting at `pos`; give back the entry and the
/// position just past its line.
#[verifier::loop_isolation(false)]
fn parse_one_entry(text: &Vec<u8>, pos: usize) -> (r: Result<(MapRoleSpec, usize), DecodeError>)
    requires
        pos < text.len(),
    ensures
        match r {
            Ok(p) => pos < p.1 <= text.len() && parse_entry(
                text@.subrange(pos as int, text.len() as int),
            ) == Option::<(MapRoleView, Seq<u8>)>::Some(
                (p.0@, text@.subrange(p.1 as int, text.len() as int)),
            ),
            Err(_) => parse_entry(text@.subrange(pos as int, text.len() as int)) is None,
        },
{
    let n: usize = text.len();
    let ghost s = text@.subrange(pos as int, n as int);
    let i_end = scan_break(text, pos);
    proof {
        lemma_scan_to_first_break(text@, pos as int, i_end as int, n as int);
    }
    if i_end == n || text[i_end] != FIELD_SEP {
        proof {
            assert(parse_entry(s) is None);
        }
        return Err(DecodeError::Malformed);
    }
    let rolearn = sub_bytes(text, pos, i_end);
    let u_start = i_end + 1;
    let ghost s1 = s.subrange(i_end - pos + 1, s.len() as int);
    proof {
        assert(s1 =~= text@.subrange(u_start as int, n as int));
    }
    let j_end = scan_break(text, u_start);
    proof {
        lemma_scan_to_first_break(text@, u_start as int, j_end as int, n as int);
    }
    if j_end == n || text[j_end] != FIELD_SEP {
        proof {
            assert(first_break(s1) == j_end - u_start);
            assert(parse_entry(s) is None);
        }
        return Err(DecodeError::Malformed);
    }
    let username = sub_bytes(text, u_start, j_end);
    let g_start = j_end + 1;
    let ghost s2 = s1.subrange(j_end - u_start + 1, s1.len() as int);
    proof {
        assert(s2 =~= text@.subrange(g_start as int, n as int));
    }
    let k_end = scan_break(text, g_start);
    proof {
        lemma_scan_to_first_break(text@, g_start as int, k_end as int, n as int);
    }
    if k_end == n || text[k_end] != ENTRY_SEP {
        proof {
            assert(first_break(s1) == j_end - u_start);
            assert(first_break(s2) == k_end - g_start);
            assert(parse_entry(s) is None);
        }
        return Err(DecodeError::Malformed);
    }
    let ghost gpart = text@.subrange(g_start as int, k_end as int);
    proof {
        assert(first_break(s1) == j_end - u_start);
        assert(first_break(s2) == k_end - g_start);
        assert(s.subrange(0, i_end - pos) =~= text@.subrange(pos as int, i_end as int));
        assert(s1.subrange(0, j_end - u_start) =~= text@.subrange(u_start as int, j_end as int));
        assert(s2.subrange(0, k_end - g_start) =~= gpart);
        assert(s2.subrange(k_end - g_start + 1, s2.len() as int) =~= text@.subrange(
            k_end + 1,
            n as int,
        ));
    }
    let mut groups: Vec<Vec<u8>> = Vec::new();
    if g_start < k_end {
        match parse_group_list(text, g_start, k_end) {
            Ok(gs) => {
                groups = gs;
            },
            Err(e) => {
                proof {
                    assert(parse_entry(s) is None);
                }
                return Err(e);
            },
        }
    }
    let entry = MapRoleSpec { rolearn, username, groups };
    let next = k_end + 1;
    proof {
        if g_start == k_end {
            assert(gpart.len() == 0);
            assert(entry@.groups =~= Seq::<Seq<u8>>::empty());
        } else {
            assert(parse_groups(gpart) == Option::<Seq<Seq<u8>>>::Some(entry@.groups));
        }
        assert(parse_entry(s) == Option::<(MapRoleView, Seq<u8>)>::Some(
            (entry@, text@.subrange(next as int, n as int)),
        ));
    }
    Ok((entry, next))
}

/// Deserialize the shared record's text field into its entry list.
///
/// Succeeds exactly on well-formed texts, those that are the encoding
/// of some entry list; malformed text is surfaced, never repaired.
#[verifier::loop_isolation(false)]
pub fn decode(text: &Vec<u8>) -> (r: Result<Vec<MapRoleSpec>, DecodeError>)
    ensures
        match r {
            Ok(es) => parse_entries(text@) == Option::<Seq<MapRoleView>>::Some(entries_view(es@)),
            Err(_) => parse_entries(text@) is None,
        },
{
    let n: usize = text.len();
    let mut out: Vec<MapRoleSpec> = Vec::new();
    let mut pos: usize = 0;
    proof {
        assert(text@.subrange(0, n as int) =~= text@);
        assert(entries_view(out@) =~= Seq::<MapRoleView>::empty());
        if parse_entries(text@) is Some {
            assert(entries_view(out@) + parse_entries(text@).unwrap() =~= parse_entries(
                text@,
            ).unwrap());
        }
    }
    while pos < n
        invariant
            pos <= n,
            parse_entries(text@) == glue_entries(
                entries_view(out@),
                parse_entries(text@.subrange(pos as int, n as int)),
            ),
        decreases n - pos,
    {
        let ghost s = text@.subrange(pos as int, n as int);
        match parse_one_entry(text, pos) {
            Err(e) => {
                proof {
                    assert(parse_entries(s) is None);
                }
                return Err(e);
            },
            Ok((entry, next)) => {
                let ghost rest = text@.subrange(next as int, n as int);
                proof {
                    assert(rest.len() < s.len());
                    let ghost ev_old = entries_view(out@);
                    assert(parse_entries(s) == glue_entries(seq![entry@], parse_entries(rest)));
                    if parse_entries(rest) is Some {
                        assert(ev_old + (seq![entry@] + parse_entries(rest).unwrap())
                            =~= (ev_old.push(entry@)) + parse_entries(rest).unwrap());
                    }
                }
                let ghost ev_old = entries_view(out@);
                out.push(entry);
                proof {
                    assert(entries_view(out@) =~= ev_old.push(out@[out@.len() - 1]@));
                }
                pos = next;
            },
        }
    }
    proof {
        assert(text@.subrange(n as int, n as int).len() == 0);
        assert(parse_entries(text@.subrange(n as int, n as int)) == Option::<
            Seq<MapRoleView>,
        >::Some(Seq::<MapRoleView>::empty()));
        assert(entries_view(out@) + Seq::<MapRoleView>::empty() =~= entries_view(out@));
    }
    Ok(out)
}

} // verus!
