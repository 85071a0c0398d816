//! Linked back faces of multi-faced cards: the index built from card metadata, the expansion of
//! a ranked list, and the freshness rules of the cached metadata.
use vstd::prelude::*;
use vstd::hash_map::StringHashMap;

verus! {

/// Metadata of one card: its layout tag and the names of its faces, in order.
#[derive(Clone, Debug)]
pub struct CardFaces {
    pub layout: Option<String>,
    pub faces: Option<Vec<String>>,
}

/// The layouts whose first two faces are a front and a back.
pub open spec fn has_back_face_layout(l: Seq<char>) -> bool {
    l == "transform"@ || l == "modal_dfc"@ || l == "reversible_card"@
}

/// The card contributes a front-to-back link.
pub open spec fn links_faces(c: CardFaces) -> bool {
    &&& c.layout is Some
    &&& has_back_face_layout(c.layout.unwrap()@)
    &&& c.faces is Some
    &&& c.faces.unwrap()@.len() >= 2
}

/// Front face name to back face name over `cards`; a later card overrides an earlier one.
pub open spec fn index_of(cards: Seq<CardFaces>) -> Map<Seq<char>, Seq<char>>
    decreases cards.len(),
{
    if cards.len() == 0 {
        Map::empty()
    } else {
        let m = index_of(cards.drop_last());
        let c = cards.last();
        if links_faces(c) {
            m.insert(c.faces.unwrap()@[0]@, c.faces.unwrap()@[1]@)
        } else {
            m
        }
    }
}

/// Front face name to back face name.
pub struct BackFaceIndex {
    links: StringHashMap<String>,
}

impl View for BackFaceIndex {
    type V = Map<Seq<char>, Seq<char>>;

    closed spec fn view(&self) -> Map<Seq<char>, Seq<char>> {
        Map::new(|k: Seq<char>| self.links@.contains_key(k), |k: Seq<char>| self.links@[k]@)
    }
}

impl BackFaceIndex {
    /// An index with no links.
    pub fn empty() -> (r: BackFaceIndex)
        ensures
            r@ == Map::<Seq<char>, Seq<char>>::empty(),
    {
        let r = BackFaceIndex { links: StringHashMap::new() };
        assert(r@ =~= Map::<Seq<char>, Seq<char>>::empty());
        r
    }

    /// The back face linked to `front`, if any.
    pub fn back_face(&self, front: &str) -> (r: Option<String>)
        ensures
            r is Some <==> self@.contains_key(front@),
            r is Some ==> r.unwrap()@ == self@[front@],
    {
        match self.links.get(front) {
            Some(b) => Some(b.clone()),
            None => None,
        }
    }

    /// The number of linked front faces.
    pub fn len(&self) -> (r: usize)
        ensures
            r == self@.len(),
    {
        proof {
            broadcast use vstd::hash_map::group_hash_map_axioms;
            assert(self@.dom() =~= self.links@.dom());
        }
        self.links.len()
    }
}

/// Whether `l` is one of the layouts with a back face.
fn is_back_face_layout(l: &String) -> (r: bool)
    ensures
        r == has_back_face_layout(l@),
{
    let transform = "transform".to_owned();
    let modal = "modal_dfc".to_owned();
    let reversible = "reversible_card".to_owned();
    *l == transform || *l == modal || *l == reversible
}

/// Links the first face of each multi-faced card to its second face.
pub fn build_back_face_index(cards: &Vec<CardFaces>) -> (r: BackFaceIndex)
    ensures
        r@ == index_of(cards@),
{
    let mut index = BackFaceIndex::empty();
    let mut i: usize = 0;
    while i < cards.len()
        invariant
            i <= cards@.len(),
            index@ == index_of(cards@.subrange(0, i as int)),
        decreases cards@.len() - i,
    {
        let card = &cards[i];
        assert(cards@.subrange(0, i + 1).drop_last() =~= cards@.subrange(0, i as int));
        assert(cards@.subrange(0, i + 1).last() == *card);
        let ghost before = index@;
        match (&card.layout, &card.faces) {
            (Some(l), Some(faces)) => {
                if is_back_face_layout(l) && faces.len() >= 2 {
                    index.links.insert(faces[0].clone(), faces[1].clone());
                    assert(index@ =~= before.insert(faces@[0]@, faces@[1]@));
                }
            },
            _ => {},
        }
        i = i + 1;
    }
    assert(cards@.subrange(0, cards@.len() as int) =~= cards@);
    index
}

/// The names and weights of a ranked list, as views.
pub open spec fn ranked_view<W>(s: Seq<(String, W)>) -> Seq<(Seq<char>, W)> {
    Seq::new(s.len(), |i: int| (s[i].0@, s[i].1))
}

/// Each entry, followed by its back face with the same weight where it has one.
pub open spec fn with_back_faces<W>(s: Seq<(Seq<char>, W)>, index: Map<Seq<char>, Seq<char>>) -> Seq<
    (Seq<char>, W),
>
    decreases s.len(),
{
    if s.len() == 0 {
        Seq::empty()
    } else {
        let e = s.last();
        let front = with_back_faces(s.drop_last(), index).push(e);
        if index.contains_key(e.0) {
            front.push((index[e.0], e.1))
        } else {
            front
        }
    }
}

/// The ranked list with each card's linked back face right after it, at the same weight.
pub fn expand_back_faces<W: Copy>(ranked: &Vec<(String, W)>, index: &BackFaceIndex) -> (r: Vec<
    (String, W),
>)
    ensures
        ranked_view(r@) == with_back_faces(ranked_view(ranked@), index@),
{
    let mut r: Vec<(String, W)> = Vec::new();
    let mut i: usize = 0;
    while i < ranked.len()
        invariant
            i <= ranked@.len(),
            ranked_view(r@) == with_back_faces(ranked_view(ranked@.subrange(0, i as int)), index@),
        decreases ranked@.len() - i,
    {
        let ghost before = ranked_view(r@);
        let name = &ranked[i].0;
        let w = ranked[i].1;
        r.push((name.clone(), w));
        assert(ranked_view(r@) =~= before.push((name@, w)));
        match index.back_face(name.as_str()) {
            Some(back) => {
                let ghost mid = ranked_view(r@);
                r.push((back, w));
                assert(ranked_view(r@) =~= mid.push((index@[name@], w)));
            },
            None => {},
        }
        let ghost upto = ranked_view(ranked@.subrange(0, i + 1));
        assert(upto.drop_last() =~= ranked_view(ranked@.subrange(0, i as int)));
        assert(upto.last() == (name@, w));
        i = i + 1;
    }
    assert(ranked@.subrange(0, ranked@.len() as int) =~= ranked@);
    r
}

/// How long the cached metadata stays fresh: seven days, in seconds.
pub const FACE_CACHE_MAX_AGE_SECS: u64 = 7 * 24 * 60 * 60;

/// The cached metadata as found before use.
#[derive(Clone, Copy, Debug, PartialEq, Eq, Structural)]
pub enum CacheState {
    /// Present and younger than the freshness window.
    Fresh,
    /// Present, but old or of unknown age.
    Stale,
    Missing,
}

/// What to do next with the cached metadata.
#[derive(Clone, Copy, Debug, PartialEq, Eq, Structural)]
pub enum CacheStep {
    /// Build the index from the cache.
    Load,
    /// Download the metadata again, overwriting the cache.
    Refresh,
    /// Build the index from the old cache, with a warning.
    LoadStale,
    /// Use an empty index.
    UseEmpty,
}

pub open spec fn cache_state_spec(exists: bool, age_secs: Option<u64>) -> CacheState {
    if exists && age_secs is Some && age_secs.unwrap() < FACE_CACHE_MAX_AGE_SECS {
        CacheState::Fresh
    } else if exists {
        CacheState::Stale
    } else {
        CacheState::Missing
    }
}

/// The state of the cache from whether its file exists and its age, where that is known.
pub fn cache_state(exists: bool, age_secs: Option<u64>) -> (r: CacheState)
    ensures
        r == cache_state_spec(exists, age_secs),
{
    if exists {
        match age_secs {
            Some(a) => if a < FACE_CACHE_MAX_AGE_SECS {
                CacheState::Fresh
            } else {
                CacheState::Stale
            },
            None => CacheState::Stale,
        }
    } else {
        CacheState::Missing
    }
}

/// A fresh cache is loaded; any other is refreshed first.
pub fn first_cache_step(state: CacheState) -> (r: CacheStep)
    ensures
        r == (if state == CacheState::Fresh {
            CacheStep::Load
        } else {
            CacheStep::Refresh
        }),
{
    match state {
        CacheState::Fresh => CacheStep::Load,
        _ => CacheStep::Refresh,
    }
}

/// After a refresh: load the new cache; where it failed, fall back to the old cache if there is
/// one, else to an empty index.
pub fn step_after_refresh(refreshed: bool, state_now: CacheState) -> (r: CacheStep)
    ensures
        r == (if refreshed {
            CacheStep::Load
        } else if state_now == CacheState::Missing {
            CacheStep::UseEmpty
        } else {
            CacheStep::LoadStale
        }),
{
    if refreshed {
        CacheStep::Load
    } else {
        match state_now {
            CacheState::Missing => CacheStep::UseEmpty,
            _ => CacheStep::LoadStale,
        }
    }
}

/// One entry of the bulk metadata listing.
#[derive(Clone, Debug)]
pub struct BulkEntry {
    pub kind: String,
    pub download_uri: String,
}

/// The tag of the listing entry that exports every card.
pub open spec fn is_oracle_kind(k: Seq<char>) -> bool {
    k == "oracle_cards"@
}

/// The index of the first entry tagged `oracle_cards`, if any.
pub fn find_oracle_entry(entries: &Vec<BulkEntry>) -> (r: Option<usize>)
    ensures
        r is None ==> forall|j: int| 0 <= j < entries@.len() ==> !is_oracle_kind(#[trigger] entries@[j].kind@),
        r is Some ==> r.unwrap() < entries@.len() && is_oracle_kind(entries@[r.unwrap() as int].kind@)
            && forall|j: int| 0 <= j < r.unwrap() ==> !is_oracle_kind(#[trigger] entries@[j].kind@),
{
    let tag = "oracle_cards".to_owned();
    let mut i: usize = 0;
    while i < entries.len()
        invariant
            i <= entries@.len(),
            tag@ == "oracle_cards"@,
            forall|j: int| 0 <= j < i ==> !is_oracle_kind(#[trigger] entries@[j].kind@),
        decreases entries@.len() - i,
    {
        if entries[i].kind == tag {
            return Some(i);
        }
        i = i + 1;
    }
    None
}

} // verus!
