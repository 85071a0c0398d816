//! Deck search: criterion parsing, the per-deck AND predicate, and per-record matches.
use vstd::prelude::*;
use vstd::multiset::Multiset;
use vstd::string::*;
use crate::date::{
    date_rank_of, file_date_of_path, path_age, path_date, path_date_text, days_since_epoch,
    DAY_INPUT_LIMIT,
};
use crate::record::{
    board, decks_of, record_matches, record_selected, Card, Deck, DecklistFile, Tournament,
};
use crate::text::{
    all_digits, decimal_u32, digits_value, is_ascii_digit, is_ascii_digit_char,
    is_white_space_char, lower_of, lowercase, trim, trimmed, white_run_end,
};

verus! {

/// A search criterion: a card name and, optionally, a required copy count.
#[derive(Clone, Debug)]
pub struct CardCriterion {
    pub name: String,
    pub count: Option<u32>,
}

/// Index just past the run of ASCII digits that starts at `i`.
pub open spec fn digit_run_end(s: Seq<char>, i: int) -> int
    decreases s.len() - i,
{
    if 0 <= i < s.len() && is_ascii_digit(s[i]) {
        digit_run_end(s, i + 1)
    } else {
        i
    }
}

/// The value of a digit string where it fits in a `u32`.
pub open spec fn parsed_u32(s: Seq<char>) -> Option<u32> {
    if digits_value(s) <= u32::MAX {
        Some(digits_value(s) as u32)
    } else {
        None
    }
}

/// The (name, count) read from a criterion text: after trimming, a leading run of digits
/// followed by a non-empty rest is a count, and the rest past one run of white space is the
/// name; otherwise the whole trimmed text is the name.
pub open spec fn criterion_of(input: Seq<char>) -> (Seq<char>, Option<u32>) {
    let t = trimmed(input);
    let k = digit_run_end(t, 0);
    let j = white_run_end(t, k);
    if k > 0 && j < t.len() {
        (t.subrange(j, t.len() as int), parsed_u32(t.subrange(0, k)))
    } else {
        (t, None)
    }
}

proof fn lemma_digit_run_bounds(s: Seq<char>, i: int)
    requires
        0 <= i <= s.len(),
    ensures
        i <= digit_run_end(s, i) <= s.len(),
        forall|k: int| i <= k < digit_run_end(s, i) ==> is_ascii_digit(#[trigger] s[k]),
    decreases s.len() - i,
{
    if i < s.len() && is_ascii_digit(s[i]) {
        lemma_digit_run_bounds(s, i + 1);
    }
}

/// Parses "4 Lightning Bolt" into name "Lightning Bolt" and count 4, and "Lightning Bolt" into
/// that name and no count. A name that itself starts with digits reads them as a count.
pub fn parse_card_criterion(input: &str) -> (r: CardCriterion)
    ensures
        (r.name@, r.count) == criterion_of(input@),
{
    let t = trim(input);
    let n = t.unicode_len();
    let mut k: usize = 0;
    while k < n && is_ascii_digit_char(t.get_char(k))
        invariant
            k <= n,
            n == t@.len(),
            digit_run_end(t@, 0) == digit_run_end(t@, k as int),
        decreases n - k,
    {
        k = k + 1;
    }
    if k > 0 {
        let mut j: usize = k;
        while j < n && is_white_space_char(t.get_char(j))
            invariant
                k <= j <= n,
                n == t@.len(),
                white_run_end(t@, k as int) == white_run_end(t@, j as int),
            decreases n - j,
        {
            j = j + 1;
        }
        if j < n {
            let digits = t.substring_char(0, k);
            proof {
                lemma_digit_run_bounds(t@, 0);
                assert(all_digits(digits@)) by {
                    assert forall|p: int| 0 <= p < digits@.len() implies is_ascii_digit(
                        #[trigger] digits@[p],
                    ) by {
                        assert(digits@[p] == t@[p]);
                    }
                }
            }
            let count = decimal_u32(digits);
            let name = t.substring_char(j, n).to_owned();
            return CardCriterion { name, count };
        }
    }
    CardCriterion { name: t.to_owned(), count: None }
}

/// What a matched deck holds for one criterion: the request, and the copies found in each
/// board, whether or not the sideboard counted toward the match.
#[derive(Clone, Debug)]
pub struct CardMatchInfo {
    pub name: String,
    pub requested: Option<u32>,
    pub found_main: u64,
    pub found_side: u64,
}

/// Copies in `cards` of the card whose lower-cased name is `key`.
pub open spec fn board_count(cards: Seq<Card>, key: Seq<char>) -> nat
    decreases cards.len(),
{
    if cards.len() == 0 {
        0
    } else {
        board_count(cards.drop_last(), key) + if lower_of(cards.last().name@) == key {
            cards.last().count as nat
        } else {
            0
        }
    }
}

/// `n`, or `u64::MAX` where it does not fit.
pub open spec fn capped(n: nat) -> u64 {
    if n > u64::MAX {
        u64::MAX
    } else {
        n as u64
    }
}

pub open spec fn main_found(d: Deck, c: CardCriterion) -> nat {
    board_count(board(d.mainboard), lower_of(c.name@))
}

pub open spec fn side_found(d: Deck, c: CardCriterion) -> nat {
    board_count(board(d.sideboard), lower_of(c.name@))
}

/// The copies that count toward the criterion.
pub open spec fn total_found(d: Deck, c: CardCriterion, include_sideboard: bool) -> nat {
    if include_sideboard {
        main_found(d, c) + side_found(d, c)
    } else {
        main_found(d, c)
    }
}

/// Any copy when no count is given; else exactly, or at least, the count.
pub open spec fn criterion_met(found: nat, count: Option<u32>, exact: bool) -> bool {
    match count {
        None => found > 0,
        Some(req) => if exact {
            found == req
        } else {
            found >= req
        },
    }
}

/// A deck matches when it meets every criterion.
pub open spec fn deck_selected(
    d: Deck,
    criteria: Seq<CardCriterion>,
    exact: bool,
    include_sideboard: bool,
) -> bool {
    forall|i: int|
        0 <= i < criteria.len() ==> criterion_met(
            total_found(d, #[trigger] criteria[i], include_sideboard),
            criteria[i].count,
            exact,
        )
}

/// A card found only in the sideboard meets a criterion without a count exactly when the
/// sideboard is included.
pub proof fn lemma_sideboard_toggle(d: Deck, c: CardCriterion, exact: bool)
    requires
        c.count is None,
        main_found(d, c) == 0,
        side_found(d, c) > 0,
    ensures
        deck_selected(d, seq![c], exact, true),
        !deck_selected(d, seq![c], exact, false),
{
    assert(seq![c][0] == c);
}

/// `m` reports criterion `c` on deck `d`.
pub open spec fn info_describes(m: CardMatchInfo, d: Deck, c: CardCriterion) -> bool {
    &&& m.name@ == c.name@
    &&& m.requested == c.count
    &&& m.found_main == capped(main_found(d, c))
    &&& m.found_side == capped(side_found(d, c))
}

/// `infos` reports each criterion of `criteria`, in order, on deck `d`.
pub open spec fn infos_describe(
    infos: Seq<CardMatchInfo>,
    d: Deck,
    criteria: Seq<CardCriterion>,
) -> bool {
    infos.len() == criteria.len() && forall|i: int|
        0 <= i < infos.len() ==> info_describes(#[trigger] infos[i], d, criteria[i])
}

/// The lower-cased names of a board, line by line.
fn lowered_names(b: &Option<Vec<Card>>) -> (r: Vec<String>)
    ensures
        r@.len() == board(*b).len(),
        forall|i: int| 0 <= i < r@.len() ==> (#[trigger] r@[i])@ == lower_of(board(*b)[i].name@),
{
    let mut r: Vec<String> = Vec::new();
    match b {
        None => {},
        Some(cards) => {
            let mut i: usize = 0;
            while i < cards.len()
                invariant
                    i <= cards@.len(),
                    board(*b) == cards@,
                    r@.len() == i,
                    forall|j: int|
                        0 <= j < i ==> (#[trigger] r@[j])@ == lower_of(cards@[j].name@),
                decreases cards@.len() - i,
            {
                r.push(lowercase(cards[i].name.as_str()));
                i = i + 1;
            }
        },
    }
    r
}

/// Copies in board `b` of the card whose lower-cased name is `key`; `lowered` holds the
/// board's lower-cased names.
fn count_in_board(b: &Option<Vec<Card>>, lowered: &Vec<String>, key: &String) -> (r: u64)
    requires
        lowered@.len() == board(*b).len(),
        forall|i: int|
            0 <= i < lowered@.len() ==> (#[trigger] lowered@[i])@ == lower_of(board(*b)[i].name@),
    ensures
        r == capped(board_count(board(*b), key@)),
{
    match b {
        None => 0,
        Some(cards) => {
            let mut acc: u64 = 0;
            let mut i: usize = 0;
            while i < cards.len()
                invariant
                    i <= cards@.len(),
                    board(*b) == cards@,
                    lowered@.len() == cards@.len(),
                    forall|j: int|
                        0 <= j < lowered@.len() ==> (#[trigger] lowered@[j])@ == lower_of(
                            cards@[j].name@,
                        ),
                    acc == capped(board_count(cards@.subrange(0, i as int), key@)),
                decreases cards@.len() - i,
            {
                assert(cards@.subrange(0, i + 1).drop_last() =~= cards@.subrange(0, i as int));
                if lowered[i] == *key {
                    acc = acc.saturating_add(cards[i].count as u64);
                }
                i = i + 1;
            }
            assert(cards@.subrange(0, cards@.len() as int) =~= cards@);
            acc
        },
    }
}

/// The per-criterion report when `deck` meets every criterion (AND), else `None`. Names
/// compare case-insensitively; with `include_sideboard` the sideboard copies count too.
pub fn deck_matches_criteria(
    deck: &Deck,
    criteria: &[CardCriterion],
    exact: bool,
    include_sideboard: bool,
) -> (r: Option<Vec<CardMatchInfo>>)
    ensures
        r is Some <==> deck_selected(*deck, criteria@, exact, include_sideboard),
        r is Some ==> infos_describe(r.unwrap()@, *deck, criteria@),
{
    let main_lower = lowered_names(&deck.mainboard);
    let side_lower = lowered_names(&deck.sideboard);
    let mut infos: Vec<CardMatchInfo> = Vec::new();
    let mut i: usize = 0;
    while i < criteria.len()
        invariant
            i <= criteria@.len(),
            main_lower@.len() == board(deck.mainboard).len(),
            forall|j: int|
                0 <= j < main_lower@.len() ==> (#[trigger] main_lower@[j])@ == lower_of(
                    board(deck.mainboard)[j].name@,
                ),
            side_lower@.len() == board(deck.sideboard).len(),
            forall|j: int|
                0 <= j < side_lower@.len() ==> (#[trigger] side_lower@[j])@ == lower_of(
                    board(deck.sideboard)[j].name@,
                ),
            infos_describe(infos@, *deck, criteria@.subrange(0, i as int)),
            forall|j: int|
                0 <= j < i ==> criterion_met(
                    total_found(*deck, #[trigger] criteria@[j], include_sideboard),
                    criteria@[j].count,
                    exact,
                ),
        decreases criteria@.len() - i,
    {
        let criterion = &criteria[i];
        let key = lowercase(criterion.name.as_str());
        let found_main = count_in_board(&deck.mainboard, &main_lower, &key);
        let found_side = count_in_board(&deck.sideboard, &side_lower, &key);
        let total = if include_sideboard {
            found_main.saturating_add(found_side)
        } else {
            found_main
        };
        assert(total == capped(total_found(*deck, *criterion, include_sideboard)));
        let met = match criterion.count {
            Some(req) => if exact {
                total == req as u64
            } else {
                total >= req as u64
            },
            None => total > 0,
        };
        if !met {
            assert(!deck_selected(*deck, criteria@, exact, include_sideboard));
            return None;
        }
        infos.push(
            CardMatchInfo {
                name: criterion.name.clone(),
                requested: criterion.count,
                found_main,
                found_side,
            },
        );
        i = i + 1;
        assert(infos_describe(infos@, *deck, criteria@.subrange(0, i as int))) by {
            assert forall|j: int| 0 <= j < infos@.len() implies info_describes(
                #[trigger] infos@[j],
                *deck,
                criteria@.subrange(0, i as int)[j],
            ) by {
                if j < i - 1 {
                    assert(criteria@.subrange(0, i as int)[j] == criteria@.subrange(
                        0,
                        i - 1,
                    )[j]);
                }
            }
        }
    }
    assert(criteria@.subrange(0, criteria@.len() as int) =~= criteria@);
    Some(infos)
}

/// A deck that matched, with its tournament's context.
pub struct DeckMatch {
    pub tournament: Tournament,
    /// The record's date as `YYYY-MM-DD`.
    pub file_date: String,
    /// The record's date as the number `YYYYMMDD`, which orders as `file_date` does.
    pub date_rank: i64,
    pub player: Option<String>,
    pub result: Option<String>,
    pub url: Option<String>,
    pub mainboard: Vec<Card>,
    pub sideboard: Vec<Card>,
    pub matched_cards: Vec<CardMatchInfo>,
}

/// The decks of `f` that meet every criterion, in record order.
pub open spec fn selected_decks(
    f: DecklistFile,
    criteria: Seq<CardCriterion>,
    exact: bool,
    include_sideboard: bool,
) -> Seq<Deck> {
    decks_of(f).filter(|d: Deck| deck_selected(d, criteria, exact, include_sideboard))
}

/// `m` reports deck `d` of record `f`, stored at path `p`, against `criteria`.
pub open spec fn match_describes(
    m: DeckMatch,
    d: Deck,
    f: DecklistFile,
    p: Seq<char>,
    criteria: Seq<CardCriterion>,
) -> bool {
    &&& m.tournament == f.tournament
    &&& path_date_text(p) == Some(m.file_date@)
    &&& path_date(p) is Some && m.date_rank == date_rank_of(path_date(p).unwrap())
    &&& m.player == d.player
    &&& m.result == d.result
    &&& m.url == d.url
    &&& m.mainboard@ == board(d.mainboard)
    &&& m.sideboard@ == board(d.sideboard)
    &&& infos_describe(m.matched_cards@, d, criteria)
}

/// A record is searched when its path holds a date no older than `max_age` days and its format
/// is selected.
pub open spec fn record_admitted(
    p: Seq<char>,
    f: DecklistFile,
    patterns: Seq<String>,
    today: int,
    max_age: int,
) -> bool {
    &&& path_age(p, today) is Some
    &&& path_age(p, today).unwrap() <= max_age
    &&& record_selected(f, patterns)
}

fn copy_text(o: &Option<String>) -> (r: Option<String>)
    ensures
        r == *o,
{
    match o {
        Some(s) => Some(s.clone()),
        None => None,
    }
}

fn copy_board(b: &Option<Vec<Card>>) -> (r: Vec<Card>)
    ensures
        r@ == board(*b),
{
    let mut r: Vec<Card> = Vec::new();
    match b {
        None => {},
        Some(cards) => {
            let mut i: usize = 0;
            while i < cards.len()
                invariant
                    i <= cards@.len(),
                    r@ == cards@.subrange(0, i as int),
                decreases cards@.len() - i,
            {
                r.push(Card { count: cards[i].count, name: cards[i].name.clone() });
                i = i + 1;
                assert(r@ =~= cards@.subrange(0, i as int));
            }
            assert(r@ =~= cards@);
        },
    }
    r
}

fn copy_tournament(t: &Tournament) -> (r: Tournament)
    ensures
        r == *t,
{
    Tournament { format: copy_text(&t.format), name: copy_text(&t.name), date: copy_text(&t.date) }
}

/// Every deck of the record `data`, stored at `path`, that meets every criterion, with its
/// report. Empty when the path holds no date, the record is older than `max_age` days, or its
/// format is absent or matches none of `format_patterns`.
pub fn search_file_for_decks(
    path: &str,
    data: &DecklistFile,
    format_patterns: &[String],
    today: i64,
    max_age: i64,
    criteria: &[CardCriterion],
    exact: bool,
    include_sideboard: bool,
) -> (r: Vec<DeckMatch>)
    requires
        -DAY_INPUT_LIMIT <= today <= DAY_INPUT_LIMIT,
    ensures
        !record_admitted(path@, *data, format_patterns@, today as int, max_age as int) ==> r@.len()
            == 0,
        record_admitted(path@, *data, format_patterns@, today as int, max_age as int) ==> {
            let sel = selected_decks(*data, criteria@, exact, include_sideboard);
            &&& r@.len() == sel.len()
            &&& forall|i: int|
                0 <= i < r@.len() ==> match_describes(
                    #[trigger] r@[i],
                    sel[i],
                    *data,
                    path@,
                    criteria@,
                )
        },
{
    let mut matches: Vec<DeckMatch> = Vec::new();
    let fd = match file_date_of_path(path) {
        Some(fd) => fd,
        None => return matches,
    };
    let age = today - days_since_epoch(fd.year, fd.month, fd.day);
    if age > max_age {
        return matches;
    }
    if !record_matches(data, format_patterns) {
        return matches;
    }
    let date_rank = fd.year * 10000 + fd.month * 100 + fd.day;
    let ghost pred = |d: Deck| deck_selected(d, criteria@, exact, include_sideboard);
    match &data.decks {
        None => {
            proof {
                reveal(Seq::filter);
            }
            assert(selected_decks(*data, criteria@, exact, include_sideboard) =~= Seq::<
                Deck,
            >::empty());
        },
        Some(decks) => {
            let mut i: usize = 0;
            while i < decks.len()
                invariant
                    i <= decks@.len(),
                    decks_of(*data) == decks@,
                    pred == (|d: Deck| deck_selected(d, criteria@, exact, include_sideboard)),
                    path_date_text(path@) == Some(fd.text@),
                    path_date(path@) is Some,
                    date_rank == date_rank_of(path_date(path@).unwrap()),
                    matches@.len() == decks@.subrange(0, i as int).filter(pred).len(),
                    forall|j: int|
                        0 <= j < matches@.len() ==> match_describes(
                            #[trigger] matches@[j],
                            decks@.subrange(0, i as int).filter(pred)[j],
                            *data,
                            path@,
                            criteria@,
                        ),
                decreases decks@.len() - i,
            {
                let deck = &decks[i];
                let ghost before = decks@.subrange(0, i as int).filter(pred);
                let ghost upto = decks@.subrange(0, i + 1);
                assert(upto.drop_last() =~= decks@.subrange(0, i as int));
                assert(upto.last() == *deck);
                proof {
                    reveal(Seq::filter);
                }
                assert(upto.filter(pred) == if pred(*deck) {
                    before.push(*deck)
                } else {
                    before
                });
                match deck_matches_criteria(deck, criteria, exact, include_sideboard) {
                    Some(matched_cards) => {
                        matches.push(
                            DeckMatch {
                                tournament: copy_tournament(&data.tournament),
                                file_date: fd.text.clone(),
                                date_rank,
                                player: copy_text(&deck.player),
                                result: copy_text(&deck.result),
                                url: copy_text(&deck.url),
                                mainboard: copy_board(&deck.mainboard),
                                sideboard: copy_board(&deck.sideboard),
                                matched_cards,
                            },
                        );
                        assert(decks@.subrange(0, i + 1).filter(pred) == before.push(*deck));
                    },
                    None => {
                        assert(decks@.subrange(0, i + 1).filter(pred) == before);
                    },
                }
                i = i + 1;
            }
            assert(decks@.subrange(0, decks@.len() as int) =~= decks@);
        },
    }
    matches
}

/// Each match is at least as recent as every match after it.
pub open spec fn newest_first(s: Seq<DeckMatch>) -> bool {
    forall|i: int, j: int| 0 <= i < j < s.len() ==> s[i].date_rank >= s[j].date_rank
}

/// Each match is at most as recent as every match after it.
pub open spec fn oldest_first(s: Seq<DeckMatch>) -> bool {
    forall|i: int, j: int| 0 <= i < j < s.len() ==> s[i].date_rank <= s[j].date_rank
}

/// Merges two lists that are each newest first into one, keeping every match.
fn merge_newest_first(a: Vec<DeckMatch>, b: Vec<DeckMatch>) -> (r: Vec<DeckMatch>)
    requires
        newest_first(a@),
        newest_first(b@),
    ensures
        newest_first(r@),
        r@.to_multiset() == a@.to_multiset().add(b@.to_multiset()),
{
    broadcast use vstd::seq_lib::group_to_multiset_ensures;
    broadcast use vstd::multiset::group_multiset_axioms;

    let ghost total = a@.to_multiset().add(b@.to_multiset());
    let mut a = a;
    let mut b = b;
    // Built oldest first by taking the older of the two oldest remaining matches.
    let mut rev: Vec<DeckMatch> = Vec::new();
    assert(rev@.to_multiset() =~= Multiset::empty());
    assert(rev@.to_multiset().add(a@.to_multiset()).add(b@.to_multiset()) =~= total);
    while a.len() > 0 || b.len() > 0
        invariant
            newest_first(a@),
            newest_first(b@),
            oldest_first(rev@),
            rev@.len() > 0 ==> forall|i: int|
                0 <= i < a@.len() ==> (#[trigger] a@[i]).date_rank >= rev@.last().date_rank,
            rev@.len() > 0 ==> forall|i: int|
                0 <= i < b@.len() ==> (#[trigger] b@[i]).date_rank >= rev@.last().date_rank,
            rev@.to_multiset().add(a@.to_multiset()).add(b@.to_multiset()) == total,
        decreases a@.len() + b@.len(),
    {
        let take_b = if a.len() == 0 {
            true
        } else if b.len() == 0 {
            false
        } else {
            b[b.len() - 1].date_rank <= a[a.len() - 1].date_rank
        };
        let ghost a0 = a@;
        let ghost b0 = b@;
        let ghost r0 = rev@;
        let x = if take_b {
            b.pop().unwrap()
        } else {
            a.pop().unwrap()
        };
        proof {
            if take_b {
                assert(b0 =~= b@.push(x));
                assert(a@ == a0);
                assert forall|i: int| 0 <= i < a@.len() implies (#[trigger] a@[i]).date_rank
                    >= x.date_rank by {
                    assert(a@[i].date_rank >= a@[a@.len() - 1].date_rank);
                }
            } else {
                assert(a0 =~= a@.push(x));
                assert(b@ == b0);
                assert forall|i: int| 0 <= i < b@.len() implies (#[trigger] b@[i]).date_rank
                    >= x.date_rank by {
                    assert(b@[i].date_rank >= b@[b@.len() - 1].date_rank);
                }
            }
        }
        rev.push(x);
        proof {
            assert(rev@ =~= r0.push(x));
            vstd::seq_lib::to_multiset_build(r0, x);
            if take_b {
                vstd::seq_lib::to_multiset_build(b@, x);
            } else {
                vstd::seq_lib::to_multiset_build(a@, x);
            }
            assert(rev@.to_multiset().add(a@.to_multiset()).add(b@.to_multiset()) =~= total);
        }
    }
    let mut out: Vec<DeckMatch> = Vec::new();
    assert(out@.to_multiset().add(rev@.to_multiset()) =~= total);
    while rev.len() > 0
        invariant
            newest_first(out@),
            oldest_first(rev@),
            out@.len() > 0 ==> forall|i: int|
                0 <= i < rev@.len() ==> (#[trigger] rev@[i]).date_rank <= out@.last().date_rank,
            out@.to_multiset().add(rev@.to_multiset()) == total,
        decreases rev@.len(),
    {
        let ghost r0 = rev@;
        let ghost o0 = out@;
        let x = rev.pop().unwrap();
        assert(r0 =~= rev@.push(x));
        out.push(x);
        proof {
            assert(out@ =~= o0.push(x));
            vstd::seq_lib::to_multiset_build(o0, x);
            vstd::seq_lib::to_multiset_build(rev@, x);
            assert(out@.to_multiset().add(rev@.to_multiset()) =~= total);
        }
    }
    assert(out@.to_multiset().add(rev@.to_multiset()) =~= out@.to_multiset());
    out
}

/// The matches, newest first; matches of one date keep their order.
fn sort_newest_first(v: Vec<DeckMatch>) -> (r: Vec<DeckMatch>)
    ensures
        r@.to_multiset() == v@.to_multiset(),
        newest_first(r@),
    decreases v@.len(),
{
    if v.len() <= 1 {
        return v;
    }
    let ghost whole = v@;
    let mut left = v;
    let mid = left.len() / 2;
    let right = left.split_off(mid);
    proof {
        vstd::seq_lib::lemma_multiset_commutative(left@, right@);
        assert(whole =~= left@ + right@);
    }
    let a = sort_newest_first(left);
    let b = sort_newest_first(right);
    merge_newest_first(a, b)
}

/// The matches ordered from the most recent record to the oldest, cut to `max_results`.
pub fn finish_search(all: Vec<DeckMatch>, max_results: usize) -> (r: Vec<DeckMatch>)
    ensures
        r@.len() == if max_results < all@.len() {
            max_results as int
        } else {
            all@.len() as int
        },
        exists|s: Seq<DeckMatch>|
            #![trigger s.to_multiset()]
            s.to_multiset() == all@.to_multiset() && newest_first(s) && r@ == s.take(
                r@.len() as int,
            ),
{
    let mut v = sort_newest_first(all);
    let ghost sorted = v@;
    proof {
        broadcast use vstd::seq_lib::group_to_multiset_ensures;
        assert(sorted.len() == sorted.to_multiset().len());
        assert(all@.len() == all@.to_multiset().len());
    }
    v.truncate(max_results);
    assert(v@ =~= sorted.take(v@.len() as int));
    v
}

} // verus!
