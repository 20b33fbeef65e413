//! The texts under which keys were written, by which listings show them.
use std::collections::HashMap;

use vstd::prelude::*;

use crate::text;
use crate::types::{ErrorView, PlayerId};
use crate::types;

verus! {

broadcast use vstd::std_specs::hash::group_hash_axioms;

/// Some keys with their texts.
pub open spec fn named_view(s: Seq<(PlayerId, String)>) -> Seq<(u128, Seq<char>)> {
    s.map_values(|e: (PlayerId, String)| (e.0.0, e.1@))
}

/// The text that a listing shows of a key: the one that it was last written under, else its UUID.
pub open spec fn shown(names: Map<u128, Seq<char>>, key: u128) -> Seq<char> {
    if names.contains_key(key) {
        names[key]
    } else {
        types::uuid_text(key)
    }
}

/// The texts after a key was written under one; the text of the UUID itself needs no place.
pub open spec fn noted(names: Map<u128, Seq<char>>, key: u128, name: Seq<char>) -> Map<
    u128,
    Seq<char>,
> {
    if name == types::uuid_text(key) {
        names.remove(key)
    } else {
        names.insert(key, name)
    }
}

/// The texts after some keys were written, in turn.
pub open spec fn all_noted(names: Map<u128, Seq<char>>, s: Seq<(u128, Seq<char>)>) -> Map<
    u128,
    Seq<char>,
>
    decreases s.len(),
{
    if s.len() == 0 {
        names
    } else {
        noted(all_noted(names, s.drop_last()), s.last().0, s.last().1)
    }
}

/// Those of some texts, in turn, that change what is shown of their keys.
pub open spec fn fresh(names: Map<u128, Seq<char>>, s: Seq<(u128, Seq<char>)>) -> Seq<
    (u128, Seq<char>),
>
    decreases s.len(),
{
    if s.len() == 0 {
        Seq::empty()
    } else {
        let rest = fresh(names, s.drop_last());
        if shown(all_noted(names, s.drop_last()), s.last().0) == s.last().1 {
            rest
        } else {
            rest.push(s.last())
        }
    }
}

/// Each text stands for its key.
pub open spec fn fit(names: Map<u128, Seq<char>>) -> bool {
    forall|key: u128| #[trigger]
        names.contains_key(key) ==> types::key_of_text(names[key]) == Ok::<u128, ErrorView>(key)
}

/// The last of some texts of a key.
pub open spec fn last_name(s: Seq<(u128, Seq<char>)>, key: u128) -> Option<Seq<char>>
    decreases s.len(),
{
    if s.len() == 0 {
        None
    } else if s.last().0 == key {
        Some(s.last().1)
    } else {
        last_name(s.drop_last(), key)
    }
}

/// The texts of keys.
pub struct KeyNames {
    texts: HashMap<u128, String>,
}

impl View for KeyNames {
    type V = Map<u128, Seq<char>>;

    closed spec fn view(&self) -> Map<u128, Seq<char>> {
        self.texts@.map_values(|s: String| s@)
    }
}

impl KeyNames {
    pub fn new() -> (r: Self)
        ensures
            r@ == Map::<u128, Seq<char>>::empty(),
    {
        let r = KeyNames { texts: HashMap::new() };
        assert(r@ =~= Map::<u128, Seq<char>>::empty());
        r
    }

    /// The text that a listing shows of a key.
    pub fn shown(&self, key: &PlayerId) -> (r: String)
        ensures
            r@ == shown(self@, key.0),
    {
        match self.texts.get(&key.0) {
            Some(s) => s.as_str().to_owned(),
            None => key.to_text(),
        }
    }

    /// Takes note of the text that a key was written under.
    pub fn note(&mut self, key: &PlayerId, name: &str)
        ensures
            final(self)@ == noted(old(self)@, key.0, name@),
    {
        let ghost before = self@;
        if text::text_eq(name, key.to_text().as_str()) {
            self.texts.remove(&key.0);
            assert(self@ =~= before.remove(key.0));
        } else {
            self.texts.insert(key.0, name.to_owned());
            assert(self@ =~= before.insert(key.0, name@));
        }
    }

    /// Takes note of the texts that some keys were written under, in turn.
    pub fn note_all(&mut self, list: &Vec<(PlayerId, String)>)
        ensures
            final(self)@ == all_noted(old(self)@, named_view(list@)),
    {
        let ghost before = self@;
        let ghost all = named_view(list@);
        let mut i: usize = 0;
        assert(all.take(0) =~= Seq::empty());
        while i < list.len()
            invariant
                i <= list@.len(),
                all == named_view(list@),
                self@ == all_noted(before, all.take(i as int)),
            decreases list@.len() - i,
        {
            assert(all.take(i + 1).drop_last() =~= all.take(i as int));
            assert(all.take(i + 1).last() == all[i as int]);
            self.note(&list[i].0, list[i].1.as_str());
            i = i + 1;
        }
        assert(all.take(i as int) =~= all);
    }
}

impl KeyNames {
    /// Takes note of the texts that some keys were written under, in turn. Gives those that change
    /// what is shown, which are to be kept.
    pub fn note_fresh(&mut self, list: &Vec<(PlayerId, String)>) -> (r: Vec<(PlayerId, String)>)
        ensures
            final(self)@ == all_noted(old(self)@, named_view(list@)),
            named_view(r@) == fresh(old(self)@, named_view(list@)),
    {
        let ghost before = self@;
        let ghost all = named_view(list@);
        let mut out: Vec<(PlayerId, String)> = Vec::new();
        let mut i: usize = 0;
        assert(all.take(0) =~= Seq::empty());
        assert(named_view(out@) =~= Seq::empty());
        while i < list.len()
            invariant
                i <= list@.len(),
                all == named_view(list@),
                self@ == all_noted(before, all.take(i as int)),
                named_view(out@) == fresh(before, all.take(i as int)),
            decreases list@.len() - i,
        {
            assert(all.take(i + 1).drop_last() =~= all.take(i as int));
            assert(all.take(i + 1).last() == all[i as int]);
            let key = list[i].0;
            let text = list[i].1.as_str();
            if !text::text_eq(self.shown(&key).as_str(), text) {
                let ghost held = named_view(out@);
                out.push((key, text.to_owned()));
                assert(named_view(out@) =~= held.push(all[i as int]));
            }
            self.note(&key, text);
            i = i + 1;
        }
        assert(all.take(i as int) =~= all);
        out
    }
}

// ---------------------------------------------------------------------------------------------
// Lines
// ---------------------------------------------------------------------------------------------
/// The lines that keep the texts of some keys.
pub open spec fn name_lines(s: Seq<(u128, Seq<char>)>) -> Seq<char>
    decreases s.len(),
{
    if s.len() == 0 {
        Seq::empty()
    } else {
        s[0].1 + "\n"@ + name_lines(s.skip(1))
    }
}

/// The keys that some lines stand for, with their texts; lines that stand for none are left out.
pub open spec fn named_lines(lines: Seq<Seq<char>>) -> Seq<(u128, Seq<char>)>
    decreases lines.len(),
{
    if lines.len() == 0 {
        Seq::empty()
    } else {
        match types::key_of_text(lines.last()) {
            Ok(key) => named_lines(lines.drop_last()).push((key, text::trimmed(lines.last()))),
            Err(_) => named_lines(lines.drop_last()),
        }
    }
}

/// The lines that keep the texts of some keys.
pub fn write_lines(list: &Vec<(PlayerId, String)>) -> (r: String)
    ensures
        r@ == name_lines(named_view(list@)),
{
    let ghost all = named_view(list@);
    let mut out = "".to_owned();
    let mut i: usize = 0;
    proof {
        reveal_strlit("");
        assert(all.skip(0) =~= all);
        assert(out@ + name_lines(all) =~= name_lines(all));
    }
    while i < list.len()
        invariant
            i <= list@.len(),
            all == named_view(list@),
            out@ + name_lines(all.skip(i as int)) == name_lines(all),
        decreases list@.len() - i,
    {
        let ghost held = out@;
        let ghost rest = all.skip(i as int);
        text::push_text(&mut out, list[i].1.as_str());
        text::push_text(&mut out, "\n");
        proof {
            assert(rest[0] == all[i as int]);
            assert(rest.skip(1) =~= all.skip(i + 1));
            assert(held + (rest[0].1 + "\n"@ + name_lines(rest.skip(1))) =~= out@ + name_lines(
                all.skip(i + 1),
            ));
        }
        i = i + 1;
    }
    assert(all.skip(i as int) =~= Seq::empty());
    assert(out@ + Seq::empty() =~= out@);
    out
}

/// The keys that the lines of a text stand for, with their texts.
pub fn read_lines(data: &str) -> (r: Vec<(PlayerId, String)>)
    ensures
        named_view(r@) == named_lines(text::pieces(data@, "\n"@)),
{
    let chars = text::chars_of(data);
    let sep = text::chars_of("\n");
    proof {
        reveal_strlit("\n");
    }
    let lines = text::split(&chars, &sep);
    let ghost view = text::pieces_view(lines@);
    let mut out: Vec<(PlayerId, String)> = Vec::new();
    let mut i: usize = 0;
    assert(view.take(0) =~= Seq::empty());
    assert(named_view(out@) =~= Seq::empty());
    while i < lines.len()
        invariant
            i <= lines@.len(),
            view == text::pieces_view(lines@),
            named_view(out@) == named_lines(view.take(i as int)),
        decreases lines@.len() - i,
    {
        proof {
            assert(view.take(i + 1).drop_last() =~= view.take(i as int));
            assert(view.take(i + 1).last() == lines@[i as int]@);
        }
        let line = text::string_of(&lines[i]);
        if let Ok(key) = PlayerId::parse(line.as_str()) {
            let name = text::string_of(text::trim(&lines[i]));
            let ghost held = named_view(out@);
            let ghost item = (key.0, name@);
            out.push((key, name));
            assert(named_view(out@) =~= held.push(item));
        }
        i = i + 1;
    }
    assert(view.take(i as int) =~= view);
    out
}

// ---------------------------------------------------------------------------------------------
// Laws
// ---------------------------------------------------------------------------------------------
/// A key is shown as it was last written; other keys are shown as before.
pub proof fn law_key_is_shown_as_written(
    names: Map<u128, Seq<char>>,
    key: u128,
    name: Seq<char>,
    other: u128,
)
    ensures
        shown(noted(names, key, name), key) == name,
        other != key ==> shown(noted(names, key, name), other) == shown(names, other),
{
}

/// What a listing shows of a key reads back as the key, as long as keys are written under texts that
/// stand for them.
pub proof fn law_shown_key_reads_back(
    names: Map<u128, Seq<char>>,
    key: u128,
    name: Seq<char>,
    other: u128,
)
    requires
        fit(names),
        types::key_of_text(name) == Ok::<u128, ErrorView>(key),
    ensures
        fit(noted(names, key, name)),
        types::key_of_text(shown(names, other)) == Ok::<u128, ErrorView>(other),
{
    types::law_key_text_round_trip(other);
}

/// After some keys were written, a key is shown by the last text that it was written under, else as
/// before.
pub proof fn law_last_text_is_shown(
    names: Map<u128, Seq<char>>,
    s: Seq<(u128, Seq<char>)>,
    key: u128,
)
    ensures
        shown(all_noted(names, s), key) == (match last_name(s, key) {
            Some(name) => name,
            None => shown(names, key),
        }),
    decreases s.len(),
{
    if s.len() > 0 {
        law_last_text_is_shown(names, s.drop_last(), key);
    }
}

/// To keep the texts that change what is shown is enough: they show every key as all texts do.
pub proof fn law_fresh_texts_show_all(
    names: Map<u128, Seq<char>>,
    s: Seq<(u128, Seq<char>)>,
    key: u128,
)
    ensures
        shown(all_noted(names, fresh(names, s)), key) == shown(all_noted(names, s), key),
    decreases s.len(),
{
    if s.len() > 0 {
        let head = s.drop_last();
        law_fresh_texts_show_all(names, head, key);
        let rest = fresh(names, head);
        assert(rest.push(s.last()).drop_last() =~= rest);
        assert(rest.push(s.last()).last() == s.last());
    }
}

proof fn lemma_named_lines_joined(a: Seq<Seq<char>>, b: Seq<Seq<char>>)
    ensures
        named_lines(a + b) == named_lines(a) + named_lines(b),
    decreases b.len(),
{
    if b.len() == 0 {
        assert(a + b =~= a);
        assert(named_lines(a) + Seq::empty() =~= named_lines(a));
    } else {
        lemma_named_lines_joined(a, b.drop_last());
        assert((a + b).drop_last() =~= a + b.drop_last());
        assert((a + b).last() == b.last());
        if let Ok(key) = types::key_of_text(b.last()) {
            let item = (key, text::trimmed(b.last()));
            assert((named_lines(a) + named_lines(b.drop_last())).push(item) =~= named_lines(a) + (
            named_lines(b.drop_last()).push(item)));
        }
    }
}

/// Texts that were written out in lines read back, as long as each is one line, without white space
/// around it, and stands for its key.
pub proof fn law_names_survive(s: Seq<(u128, Seq<char>)>)
    requires
        forall|i: int|
            0 <= i < s.len() ==> !(#[trigger] s[i]).1.contains('\n') && text::trimmed(s[i].1)
                == s[i].1 && types::key_of_text(s[i].1) == Ok::<u128, ErrorView>(s[i].0),
    ensures
        named_lines(text::pieces(name_lines(s), "\n"@)) == s,
    decreases s.len(),
{
    reveal_strlit("\n");
    reveal_with_fuel(named_lines, 2);
    let sep = "\n"@;
    if s.len() == 0 {
        let none = Seq::<char>::empty();
        assert(text::place_of(none, sep, 0) is None);
        let one = seq![none];
        assert(text::pieces(none, sep) == one);
        types::law_only_empty_text_is_no_key(none);
        text::lemma_trimmed_id(none);
        assert(one.drop_last() =~= Seq::empty());
        assert(named_lines(one) =~= s);
    } else {
        let rest = s.skip(1);
        assert forall|i: int| 0 <= i < rest.len() implies !(#[trigger] rest[i]).1.contains('\n')
            && text::trimmed(rest[i].1) == rest[i].1 && types::key_of_text(rest[i].1) == Ok::<
            u128,
            ErrorView,
        >(rest[i].0) by {
            assert(rest[i] == s[i + 1]);
        }
        law_names_survive(rest);
        let x = s[0].1;
        let y = name_lines(rest);
        assert(text::joins(x, sep, y));
        text::lemma_joined_pieces(x, sep, y);
        text::lemma_place_of(x, sep, 0);
        if let Some(i) = text::place_of(x, sep, 0) {
            assert(x.subrange(i, i + 1)[0] == sep[0]);
            assert(x[i] == '\n');
        }
        let one = seq![x];
        assert(text::pieces(x, sep) == one);
        lemma_named_lines_joined(one, text::pieces(y, sep));
        assert(one.drop_last() =~= Seq::empty());
        assert(named_lines(one) =~= seq![s[0]]);
        assert(seq![s[0]] + rest =~= s);
    }
}

} // verus!
