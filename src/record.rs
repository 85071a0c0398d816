//! The decoded form of a tournament record, and the format filter applied to it.
use vstd::prelude::*;
use vstd::string::*;
use crate::text::{contains_text, lower_of, lowercase, text_contains, trim, trimmed};

verus! {

/// Tournament metadata; `format` is the key that format patterns are matched against.
#[derive(Clone, Debug)]
pub struct Tournament {
    pub format: Option<String>,
    pub name: Option<String>,
    pub date: Option<String>,
}

/// One card line of a board: a name, exactly as written, and a copy count.
#[derive(Clone, Debug)]
pub struct Card {
    pub count: u32,
    pub name: String,
}

/// One deck of a tournament. `result` is already normalised to text.
#[derive(Clone, Debug)]
pub struct Deck {
    pub player: Option<String>,
    pub result: Option<String>,
    pub url: Option<String>,
    pub mainboard: Option<Vec<Card>>,
    pub sideboard: Option<Vec<Card>>,
}

/// One tournament record.
#[derive(Clone, Debug)]
pub struct DecklistFile {
    pub tournament: Tournament,
    pub decks: Option<Vec<Deck>>,
}

/// The cards of a board; an absent board is empty.
pub open spec fn board(b: Option<Vec<Card>>) -> Seq<Card> {
    match b {
        Some(v) => v@,
        None => Seq::empty(),
    }
}

/// The decks of a record; absent decks are none.
pub open spec fn decks_of(f: DecklistFile) -> Seq<Deck> {
    match f.decks {
        Some(v) => v@,
        None => Seq::empty(),
    }
}

/// A format is selected when its lower-cased form contains a lower-cased pattern.
pub open spec fn format_selected(format: Seq<char>, patterns: Seq<String>) -> bool {
    exists|k: int|
        0 <= k < patterns.len() && contains_text(lower_of(format), lower_of(#[trigger] patterns[k]@))
}

/// A record is selected when it has a format and that format is selected.
pub open spec fn record_selected(f: DecklistFile, patterns: Seq<String>) -> bool {
    f.tournament.format is Some && format_selected(f.tournament.format.unwrap()@, patterns)
}

/// Whether `format` contains, case-insensitively, at least one of `patterns`.
pub fn format_matches(format: &str, patterns: &[String]) -> (r: bool)
    ensures
        r == format_selected(format@, patterns@),
{
    let lowered = lowercase(format);
    let mut k: usize = 0;
    while k < patterns.len()
        invariant
            k <= patterns@.len(),
            lowered@ == lower_of(format@),
            forall|j: int|
                0 <= j < k ==> !contains_text(lower_of(format@), lower_of(#[trigger] patterns@[j]@)),
        decreases patterns@.len() - k,
    {
        let p = lowercase(patterns[k].as_str());
        if text_contains(lowered.as_str(), p.as_str()) {
            return true;
        }
        k = k + 1;
    }
    false
}

/// Whether the record has a format and it is selected by `patterns`.
pub fn record_matches(data: &DecklistFile, patterns: &[String]) -> (r: bool)
    ensures
        r == record_selected(*data, patterns@),
{
    match &data.tournament.format {
        Some(f) => format_matches(f.as_str(), patterns),
        None => false,
    }
}

/// The pieces of `s` between commas, from left to right.
pub open spec fn comma_pieces(s: Seq<char>) -> Seq<Seq<char>>
    decreases s.len(),
{
    if s.len() == 0 {
        seq![Seq::empty()]
    } else {
        let p = comma_pieces(s.drop_last());
        if s.last() == ',' {
            p.push(Seq::empty())
        } else {
            p.update(p.len() - 1, p.last().push(s.last()))
        }
    }
}

/// The format patterns of a comma-separated list, each trimmed.
pub open spec fn format_list(s: Seq<char>) -> Seq<Seq<char>> {
    comma_pieces(s).map_values(|p: Seq<char>| trimmed(p))
}

/// Splits a comma-separated list of formats and trims each piece.
pub fn parse_format_patterns(formats: &str) -> (r: Vec<String>)
    ensures
        r@.len() == format_list(formats@).len(),
        forall|i: int| 0 <= i < r@.len() ==> (#[trigger] r@[i])@ == format_list(formats@)[i],
{
    let n = formats.unicode_len();
    let mut r: Vec<String> = Vec::new();
    let ghost mut raw: Seq<Seq<char>> = Seq::empty();
    let mut start: usize = 0;
    let mut i: usize = 0;
    assert(formats@.subrange(0, 0) =~= Seq::<char>::empty());
    assert(raw.push(formats@.subrange(0, 0)) =~= seq![Seq::<char>::empty()]);
    while i < n
        invariant
            start <= i <= n,
            n == formats@.len(),
            comma_pieces(formats@.subrange(0, i as int)) == raw.push(
                formats@.subrange(start as int, i as int),
            ),
            r@.len() == raw.len(),
            forall|j: int| 0 <= j < r@.len() ==> (#[trigger] r@[j])@ == trimmed(raw[j]),
        decreases n - i,
    {
        let c = formats.get_char(i);
        let ghost prefix = formats@.subrange(0, i + 1);
        assert(prefix.drop_last() =~= formats@.subrange(0, i as int));
        if c == ',' {
            let piece = formats.substring_char(start, i);
            r.push(trim(piece).to_owned());
            proof {
                raw = raw.push(formats@.subrange(start as int, i as int));
            }
            start = i + 1;
            assert(formats@.subrange(start as int, i + 1) =~= Seq::<char>::empty());
        } else {
            assert(formats@.subrange(start as int, i + 1) =~= formats@.subrange(
                start as int,
                i as int,
            ).push(c));
        }
        i = i + 1;
    }
    let piece = formats.substring_char(start, n);
    r.push(trim(piece).to_owned());
    proof {
        raw = raw.push(formats@.subrange(start as int, n as int));
        assert(formats@.subrange(0, n as int) =~= formats@);
    }
    assert(r@.len() == format_list(formats@).len());
    r
}

} // verus!
