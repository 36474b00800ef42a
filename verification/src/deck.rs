//! Decks of flashcards. A deck names an ordered set of faces; each card
//! aligns a value (possibly several alternative renderings) with each face.
//! Validation establishes the invariants the problem generator relies on:
//! at least two faces per deck, unique face names, consistent card widths,
//! at least two present faces per card, no empty multi-value face, and
//! unique card fronts.

use crate::random::shuffle_vec;
use vstd::pervasive::unreached;
use vstd::prelude::*;
use vstd::string::StrSliceExecFns;
use vstd::string::StringExecFns;

verus! {

/// Mathematical value of a face: one string, or several alternative
/// renderings of the same answer.
pub enum FaceVal {
    Single(Seq<char>),
    Multi(Seq<Seq<char>>),
}

/// One value of a card, either a single string or several alternative
/// renderings joined for display with an inferred separator.
#[derive(Debug)]
pub enum Face {
    Single(String),
    Multi(Vec<String>),
}

impl View for Face {
    type V = FaceVal;

    open spec fn view(&self) -> FaceVal {
        match self {
            Face::Single(s) => FaceVal::Single(s@),
            Face::Multi(v) => FaceVal::Multi(v.deep_view()),
        }
    }
}

impl DeepView for Face {
    type V = FaceVal;

    open spec fn deep_view(&self) -> FaceVal {
        self.view()
    }
}

/// The strings of `parts` concatenated with `sep` between them.
pub open spec fn join_strs(parts: Seq<Seq<char>>, sep: Seq<char>) -> Seq<char>
    decreases parts.len(),
{
    if parts.len() == 0 {
        Seq::empty()
    } else if parts.len() == 1 {
        parts[0]
    } else {
        join_strs(parts.drop_last(), sep) + sep + parts.last()
    }
}

/// `pat` occurs contiguously in `s`.
pub open spec fn has_substring(s: Seq<char>, pat: Seq<char>) -> bool {
    exists|k: int| 0 <= k && k + pat.len() <= s.len() && #[trigger] s.subrange(k, k + pat.len())
        == pat
}

/// Whether `pat` occurs in the face's single value, or in any alternative
/// of a multi-value face.
pub open spec fn face_contains_spec(f: FaceVal, pat: Seq<char>) -> bool {
    ||| (f matches FaceVal::Single(s) && has_substring(s, pat))
    ||| (f matches FaceVal::Multi(v) && exists|i: int|
        0 <= i < v.len() && #[trigger] has_substring(v[i], pat))
}

/// The separator a face infers for display: `"; "` when some value already
/// holds a comma, else `", "`.
pub open spec fn face_sep(f: FaceVal) -> Seq<char> {
    if face_contains_spec(f, ","@) {
        "; "@
    } else {
        ", "@
    }
}

/// Display string of a face: the single value, or the alternatives joined
/// with the separator the face infers.
pub open spec fn face_display(f: FaceVal) -> Seq<char> {
    match f {
        FaceVal::Single(s) => s,
        FaceVal::Multi(v) => join_strs(v, face_sep(f)),
    }
}

/// Whether `pat` occurs in `s` starting at position `k`.
fn str_matches_at(s: &str, pat: &str, k: usize) -> (r: bool)
    requires
        k + pat@.len() <= s@.len(),
        s@.len() <= usize::MAX,
    ensures
        r == (s@.subrange(k as int, k + pat@.len()) == pat@),
{
    let m = pat.unicode_len();
    let mut j: usize = 0;
    while j < m
        invariant
            j <= m,
            m == pat@.len(),
            k + m <= s@.len(),
            s@.len() <= usize::MAX,
            forall|t: int| 0 <= t < j ==> s@[k + t] == pat@[t],
        decreases m - j,
    {
        if s.get_char(k + j) != pat.get_char(j) {
            assert(s@.subrange(k as int, k + pat@.len())[j as int] != pat@[j as int]);
            return false;
        }
        j = j + 1;
    }
    proof {
        assert(s@.subrange(k as int, k + pat@.len()) =~= pat@);
    }
    true
}

/// Substring search by scanning every start position.
pub fn str_contains(s: &str, pat: &str) -> (r: bool)
    ensures
        r == has_substring(s@, pat@),
{
    let n = s.unicode_len();
    let m = pat.unicode_len();
    if m > n {
        return false;
    }
    let limit = n - m;
    let mut k: usize = 0;
    loop
        invariant
            m <= n,
            n == s@.len(),
            m == pat@.len(),
            limit == n - m,
            k <= limit,
            forall|kk: int| 0 <= kk < k ==> #[trigger] s@.subrange(kk, kk + pat@.len()) != pat@,
        ensures
            forall|kk: int| 0 <= kk <= limit ==> #[trigger] s@.subrange(kk, kk + pat@.len())
                != pat@,
        decreases limit - k,
    {
        if str_matches_at(s, pat, k) {
            return true;
        }
        if k == limit {
            break ;
        }
        k = k + 1;
    }
    false
}

impl Face {
    /// The single string, or the alternatives joined with `sep` between
    /// them.
    pub fn join(&self, sep: &str) -> (r: String)
        ensures
            (self matches Face::Single(s) ==> r@ == s@),
            (self matches Face::Multi(v) ==> r@ == join_strs(v.deep_view(), sep@)),
    {
        match self {
            Face::Single(s) => s.clone(),
            Face::Multi(v) => join_string_vec(v, sep),
        }
    }

    /// The face's display string: its value, or its alternatives joined
    /// with the separator the face infers.
    pub fn display(&self) -> (r: String)
        ensures
            r@ == face_display(self@),
    {
        match self {
            Face::Single(s) => s.clone(),
            Face::Multi(v) => {
                let sep = self.infer_separator();
                join_string_vec(v, sep)
            },
        }
    }

    /// As `display`, but the alternatives of a multi-value face are joined
    /// in a random order, so repeated presentations vary.
    pub fn join_random(&self, sep: &str, rng: &mut rand::rngs::ThreadRng) -> (r: String)
        ensures
            (self matches Face::Single(s) ==> r@ == s@),
            (self matches Face::Multi(v) ==> exists|p: Seq<String>|
                #[trigger] p.to_multiset() == v@.to_multiset() && r@ == join_strs(
                    p.map_values(|x: String| x@),
                    sep@,
                )),
    {
        match self {
            Face::Single(s) => s.clone(),
            Face::Multi(v) => {
                let copy = clone_string_vec(v);
                let shuffled = shuffle_vec(copy, rng);
                let r = join_string_vec(&shuffled, sep);
                proof {
                    assert(shuffled.deep_view() =~= shuffled@.map_values(|x: String| x@));
                    assert(shuffled@.to_multiset() == v@.to_multiset() && r@ == join_strs(
                        shuffled@.map_values(|x: String| x@),
                        sep@,
                    ));
                }
                r
            },
        }
    }

    /// The separator the face infers from its values.
    pub fn infer_separator(&self) -> (r: &'static str)
        ensures
            r@ == face_sep(self@),
    {
        proof {
            reveal_strlit("; ");
            reveal_strlit(", ");
        }
        if self.contains(",") {
            "; "
        } else {
            ", "
        }
    }

    /// Whether `pat` occurs in the single value, or in any alternative of
    /// a multi-value face.
    pub fn contains(&self, pat: &str) -> (r: bool)
        ensures
            r == face_contains_spec(self@, pat@),
    {
        match self {
            Face::Single(s) => str_contains(s.as_str(), pat),
            Face::Multi(v) => any_string_contains(v, pat),
        }
    }

    /// Applies `func` to the alternatives of a multi-value face; `false`
    /// for a single-value face.
    pub fn is_multi_and<F: FnOnce(&Vec<String>) -> bool>(&self, func: F) -> (r: bool)
        requires
            forall|v: &Vec<String>| #[trigger] func.requires((v,)),
        ensures
            (self matches Face::Single(s) ==> r == false),
            (self matches Face::Multi(v) ==> func.ensures((v,), r)),
    {
        match self {
            Face::Multi(v) => func(v),
            Face::Single(_) => false,
        }
    }
}

impl PartialEq for Face {
    /// Structural equality of face values.
    fn eq(&self, other: &Face) -> (r: bool) {
        match (self, other) {
            (Face::Single(a), Face::Single(b)) => {
                let r = *a == *b;
                proof {
                    assert(r == (self@ == other@));
                }
                r
            },
            (Face::Multi(a), Face::Multi(b)) => {
                let r = string_vecs_equal(a, b);
                proof {
                    assert(r == (self@ == other@));
                }
                r
            },
            _ => false,
        }
    }
}

impl vstd::std_specs::cmp::PartialEqSpecImpl for Face {
    open spec fn obeys_eq_spec() -> bool {
        true
    }

    open spec fn eq_spec(&self, other: &Face) -> bool {
        self@ == other@
    }
}

/// Whether `pat` occurs in any string of `v`.
fn any_string_contains(v: &Vec<String>, pat: &str) -> (r: bool)
    ensures
        r == exists|i: int|
            0 <= i < v.deep_view().len() && #[trigger] has_substring(v.deep_view()[i], pat@),
{
    let ghost dv = v.deep_view();
    let mut i: usize = 0;
    while i < v.len()
        invariant
            i <= v@.len(),
            dv == v.deep_view(),
            dv.len() == v@.len(),
            forall|t: int| 0 <= t < i ==> !(#[trigger] has_substring(dv[t], pat@)),
        decreases v@.len() - i,
    {
        proof {
            assert(dv[i as int] == v@[i as int]@);
        }
        if str_contains(v[i].as_str(), pat) {
            assert(has_substring(dv[i as int], pat@));
            return true;
        }
        i = i + 1;
    }
    false
}

/// Element-wise comparison of two string vectors.
fn string_vecs_equal(a: &Vec<String>, b: &Vec<String>) -> (r: bool)
    ensures
        r == (a.deep_view() == b.deep_view()),
{
    if a.len() != b.len() {
        assert(a.deep_view().len() != b.deep_view().len());
        return false;
    }
    let mut i: usize = 0;
    while i < a.len()
        invariant
            i <= a@.len(),
            a@.len() == b@.len(),
            forall|t: int| 0 <= t < i ==> a@[t]@ == b@[t]@,
        decreases a@.len() - i,
    {
        if !(a[i] == b[i]) {
            assert(a.deep_view()[i as int] != b.deep_view()[i as int]);
            return false;
        }
        i = i + 1;
    }
    proof {
        assert(a.deep_view() =~= b.deep_view());
    }
    true
}

/// A copy of a string vector with the same contents.
pub fn clone_string_vec(v: &Vec<String>) -> (r: Vec<String>)
    ensures
        r@ == v@,
{
    let mut buf: Vec<String> = Vec::with_capacity(v.len());
    let mut i: usize = 0;
    while i < v.len()
        invariant
            i <= v@.len(),
            buf@ =~= v@.take(i as int),
        decreases v@.len() - i,
    {
        buf.push(v[i].clone());
        i = i + 1;
    }
    proof {
        assert(v@.take(v@.len() as int) =~= v@);
    }
    buf
}

proof fn lemma_join_take_step(parts: Seq<Seq<char>>, sep: Seq<char>, i: int)
    requires
        1 <= i < parts.len(),
    ensures
        join_strs(parts.take(i + 1), sep) == join_strs(parts.take(i), sep) + sep + parts[i],
{
    assert(parts.take(i + 1).drop_last() =~= parts.take(i));
    assert(parts.take(i + 1).last() == parts[i]);
}

/// The strings of `v` joined with `sep` between them.
fn join_string_vec(v: &Vec<String>, sep: &str) -> (r: String)
    ensures
        r@ == join_strs(v.deep_view(), sep@),
{
    let mut buf = String::new();
    let mut i: usize = 0;
    while i < v.len()
        invariant
            i <= v@.len(),
            v.deep_view().len() == v@.len(),
            buf@ == join_strs(v.deep_view().take(i as int), sep@),
        decreases v@.len() - i,
    {
        if i > 0 {
            buf.append(sep);
        }
        buf.append(v[i].as_str());
        proof {
            assert(v.deep_view()[i as int] == v@[i as int]@);
            if i == 0 {
                assert(join_strs(v.deep_view().take(1), sep@) == v.deep_view().take(1)[0]);
                assert(buf@ =~= v.deep_view()[0]);
            } else {
                lemma_join_take_step(v.deep_view(), sep@, i as int);
            }
        }
        i = i + 1;
    }
    proof {
        assert(v.deep_view().take(v.deep_view().len() as int) =~= v.deep_view());
    }
    buf
}

/// The first present (non-null) face value of a card's face sequence.
pub open spec fn first_present(s: Seq<Option<FaceVal>>) -> Option<FaceVal>
    decreases s.len(),
{
    if s.len() == 0 {
        None
    } else if s.first() is Some {
        s.first()
    } else {
        first_present(s.drop_first())
    }
}

/// How many entries of a card's face sequence are present.
pub open spec fn count_present(s: Seq<Option<FaceVal>>) -> int
    decreases s.len(),
{
    if s.len() == 0 {
        0
    } else {
        count_present(s.drop_last()) + if s.last() is Some {
            1int
        } else {
            0int
        }
    }
}

pub proof fn lemma_count_present_take_step(s: Seq<Option<FaceVal>>, i: int)
    requires
        0 <= i < s.len(),
    ensures
        count_present(s.take(i + 1)) == count_present(s.take(i)) + if s[i] is Some {
            1int
        } else {
            0int
        },
{
    assert(s.take(i + 1).drop_last() =~= s.take(i));
    assert(s.take(i + 1).last() == s[i]);
}

/// `count_present` splits off its first entry.
proof fn lemma_count_present_first(s: Seq<Option<FaceVal>>)
    requires
        s.len() > 0,
    ensures
        count_present(s) == count_present(s.drop_first()) + if s.first() is Some {
            1int
        } else {
            0int
        },
    decreases s.len(),
{
    if s.len() == 1 {
        assert(s.drop_first() =~= Seq::<Option<FaceVal>>::empty());
        assert(s.drop_last() =~= Seq::<Option<FaceVal>>::empty());
        assert(s.first() == s.last());
    } else {
        lemma_count_present_first(s.drop_last());
        assert(s.drop_last().drop_first() =~= s.drop_first().drop_last());
        assert(s.drop_last().first() == s.first());
        assert(s.drop_first().last() == s.last());
        assert(count_present(s.drop_first()) == count_present(s.drop_first().drop_last()) + if s.last() is Some {
            1int
        } else {
            0int
        });
    }
}

/// A card with a present face has a front.
pub proof fn lemma_present_has_front(s: Seq<Option<FaceVal>>)
    requires
        count_present(s) >= 1,
    ensures
        first_present(s) is Some,
    decreases s.len(),
{
    if s.len() > 0 {
        lemma_count_present_first(s);
        if s.first() is None {
            lemma_present_has_front(s.drop_first());
        }
    } else {
        assert(count_present(s) == 0);
    }
}

/// `first_present` is decided by the part of the sequence from the first
/// present entry on.
proof fn lemma_first_present_skip(s: Seq<Option<FaceVal>>, i: int)
    requires
        0 <= i <= s.len(),
        forall|t: int| 0 <= t < i ==> s[t] is None,
    ensures
        first_present(s) == first_present(s.skip(i)),
    decreases i,
{
    if i == 0 {
        assert(s.skip(0) =~= s);
    } else {
        lemma_first_present_skip(s, i - 1);
        assert(s.skip(i - 1).first() == s[i - 1]);
        assert(s.skip(i - 1).drop_first() =~= s.skip(i));
    }
}

/// A card: one optional value per face of the owning deck, at least two of
/// them present.
#[derive(Debug)]
pub struct Card(Vec<Option<Face>>);

impl View for Card {
    type V = Seq<Option<FaceVal>>;

    closed spec fn view(&self) -> Seq<Option<FaceVal>> {
        self.0.deep_view()
    }
}

impl DeepView for Card {
    type V = Seq<Option<FaceVal>>;

    open spec fn deep_view(&self) -> Seq<Option<FaceVal>> {
        self.view()
    }
}

/// Display strings of the present faces, in face order.
pub open spec fn present_displays(s: Seq<Option<FaceVal>>) -> Seq<Seq<char>>
    decreases s.len(),
{
    if s.len() == 0 {
        Seq::empty()
    } else {
        match s.last() {
            Some(f) => present_displays(s.drop_last()).push(face_display(f)),
            None => present_displays(s.drop_last()),
        }
    }
}

proof fn lemma_present_displays_take_step(s: Seq<Option<FaceVal>>, i: int)
    requires
        0 <= i < s.len(),
    ensures
        present_displays(s.take(i + 1)) == match s[i] {
            Some(f) => present_displays(s.take(i)).push(face_display(f)),
            None => present_displays(s.take(i)),
        },
{
    assert(s.take(i + 1).drop_last() =~= s.take(i));
    assert(s.take(i + 1).last() == s[i]);
}

impl Card {
    /// Wraps the face values of a new card; a card must expose at least
    /// two present faces.
    pub fn new(faces: Vec<Option<Face>>) -> (r: Card)
        requires
            count_present(faces.deep_view()) >= 2,
        ensures
            r@ == faces.deep_view(),
    {
        Card(faces)
    }

    /// Wraps face values as read from a deck file, before validation; a
    /// card that reaches the quiz has passed `validate_deck`.
    pub fn from_faces(faces: Vec<Option<Face>>) -> (r: Card)
        ensures
            r@ == faces.deep_view(),
    {
        Card(faces)
    }

    pub fn face_count(&self) -> (r: usize)
        ensures
            r == self@.len(),
    {
        self.0.len()
    }

    /// The face value at `i`, if present.
    pub fn face_at(&self, i: usize) -> (r: &Option<Face>)
        requires
            i < self@.len(),
        ensures
            r.deep_view() == self@[i as int],
    {
        &self.0[i]
    }

    /// All present face values' display strings joined with `sep`, in face
    /// order.
    pub fn join(&self, sep: &str) -> (r: String)
        ensures
            r@ == join_strs(present_displays(self@), sep@),
    {
        let mut parts: Vec<String> = Vec::new();
        let mut i: usize = 0;
        while i < self.0.len()
            invariant
                i <= self@.len(),
                self@.len() == self.0.len(),
                self@ == self.0.deep_view(),
                parts.deep_view() =~= present_displays(self@.take(i as int)),
            decreases self.0@.len() - i,
        {
            proof {
                lemma_present_displays_take_step(self@, i as int);
                assert(self@[i as int] == self.0@[i as int].deep_view());
            }
            let ghost before = parts.deep_view();
            match &self.0[i] {
                Some(face) => {
                    let shown = face.display();
                    parts.push(shown);
                    proof {
                        assert(parts.deep_view() =~= before.push(shown@));
                    }
                },
                None => {},
            }
            i = i + 1;
        }
        proof {
            assert(self@.take(self@.len() as int) =~= self@);
        }
        join_string_vec(&parts, sep)
    }

    /// The first present face, which serves as the card's front.
    pub fn front(&self) -> (r: Option<&Face>)
        ensures
            r.deep_view() == first_present(self@),
    {
        let mut i: usize = 0;
        while i < self.0.len()
            invariant
                i <= self@.len(),
                self@.len() == self.0.len(),
                self@ == self.0.deep_view(),
                forall|t: int| 0 <= t < i ==> self@[t] is None,
            decreases self.0@.len() - i,
        {
            proof {
                assert(self@[i as int] == self.0@[i as int].deep_view());
            }
            match &self.0[i] {
                Some(face) => {
                    proof {
                        lemma_first_present_skip(self@, i as int);
                        assert(self@.skip(i as int).first() == self@[i as int]);
                    }
                    return Some(face);
                },
                None => {},
            }
            i = i + 1;
        }
        proof {
            lemma_first_present_skip(self@, self@.len() as int);
            assert(self@.skip(self@.len() as int) =~= Seq::<Option<FaceVal>>::empty());
        }
        None
    }

    /// Display string of the card's front; the card must have a present
    /// face.
    pub fn front_string(&self) -> (r: String)
        requires
            first_present(self@) is Some,
        ensures
            r@ == face_display(first_present(self@)->Some_0),
    {
        let front = self.front();
        match front {
            Some(face) => {
                proof {
                    assert(first_present(self@) == Some(face@));
                }
                face.display()
            },
            None => unreached(),
        }
    }
}

/// Stable identity of a card: the owning deck's name, a colon, and the
/// card's front display string.
#[derive(Debug)]
pub struct CardId(pub String);

impl View for CardId {
    type V = Seq<char>;

    open spec fn view(&self) -> Seq<char> {
        self.0@
    }
}

/// The identity string a (deck, card) pair persists under.
pub open spec fn card_id_spec(deck_name: Seq<char>, card: Seq<Option<FaceVal>>) -> Seq<char> {
    deck_name + ":"@ + face_display(first_present(card)->Some_0)
}

impl CardId {
    /// The identity under which a card's statistics persist across runs.
    pub fn get(deck: &Deck, card: &Card) -> (r: CardId)
        requires
            first_present(card@) is Some,
        ensures
            r@ == card_id_spec(deck.name@, card@),
    {
        let mut id = deck.name.clone();
        id.append(":");
        let front = card.front_string();
        id.append(front.as_str());
        CardId(id)
    }
}

/// A named deck: an ordered list of face names and the cards that share
/// them.
#[derive(Debug)]
pub struct Deck {
    pub name: String,
    pub faces: Vec<String>,
    pub cards: Vec<Card>,
}

/// What can be wrong with a single card.
#[derive(Debug)]
pub enum CardError {
    DuplicateFront(Box<(Face, Card, Card)>),
    EmptyFace(Card),
    NotEnoughFaces(Card, usize),
    NotEnoughUsableFaces(Card),
    TooManyFaces(Card, usize),
}

/// What can be wrong with a deck, or with reading one. The reading
/// variants carry the path and the reader's message as plain strings.
#[derive(Debug)]
pub enum DeckError {
    IoError(String, String),
    SerdeError(String, String),
    NotEnoughFaces(Deck),
    DuplicateFace(Deck, String),
    DuplicateDeckNames(String),
    InvalidCard(Deck, CardError),
}

/// A deck must name at least two faces.
pub open spec fn deck_has_enough_faces(d: &Deck) -> bool {
    d.faces@.len() >= 2
}

/// No two faces of a deck share a name.
pub open spec fn deck_faces_unique(d: &Deck) -> bool {
    forall|i: int, j: int| 0 <= i < j < d.faces@.len() ==> (#[trigger] d.faces@[i])@ != (
    #[trigger] d.faces@[j])@
}

/// Every card has exactly one entry per face of the deck.
pub open spec fn deck_cards_sized(d: &Deck) -> bool {
    forall|k: int| 0 <= k < d.cards@.len() ==> (#[trigger] d.cards@[k])@.len() == d.faces@.len()
}

/// Every card has at least two present faces.
pub open spec fn deck_cards_usable(d: &Deck) -> bool {
    forall|k: int| 0 <= k < d.cards@.len() ==> count_present((#[trigger] d.cards@[k])@) >= 2
}

/// No present face of the card is a multi-value face without values.
pub open spec fn card_no_empty_multi(c: Seq<Option<FaceVal>>) -> bool {
    forall|i: int|
        0 <= i < c.len() ==> !((#[trigger] c[i]) matches Some(FaceVal::Multi(m)) && m.len() == 0)
}

pub open spec fn deck_no_empty_multi(d: &Deck) -> bool {
    forall|k: int| 0 <= k < d.cards@.len() ==> card_no_empty_multi((#[trigger] d.cards@[k])@)
}

/// No two cards of the deck share a front value.
pub open spec fn deck_fronts_unique(d: &Deck) -> bool {
    forall|k1: int, k2: int|
        0 <= k1 < k2 < d.cards@.len() ==> !(first_present(
            (#[trigger] d.cards@[k1])@,
        ) matches Some(f) && first_present((#[trigger] d.cards@[k2])@) == Some(f))
}

/// All the invariants a validated deck upholds.
pub open spec fn deck_valid(d: &Deck) -> bool {
    &&& deck_has_enough_faces(d)
    &&& deck_faces_unique(d)
    &&& deck_cards_sized(d)
    &&& deck_cards_usable(d)
    &&& deck_no_empty_multi(d)
    &&& deck_fronts_unique(d)
}

/// The error a deck failing validation is rejected with: the checks run in
/// a fixed order and the first failing one names the error.
pub open spec fn expected_deck_error(deck: &Deck, e: DeckError) -> bool {
    if !deck_has_enough_faces(deck) {
        e matches DeckError::NotEnoughFaces(d) && d == *deck
    } else if !deck_faces_unique(deck) {
        &&& e matches DeckError::DuplicateFace(d, f) && d == *deck && exists|i: int, j: int|
            0 <= i < j < deck.faces@.len() && (#[trigger] deck.faces@[i])@ == (
            #[trigger] deck.faces@[j])@ && deck.faces@[i]@ == f@ && (forall|a: int, b: int|
                0 <= a < b < j ==> (#[trigger] deck.faces@[a])@ != (#[trigger] deck.faces@[b])@)
    } else if !deck_cards_sized(deck) {
        e matches DeckError::InvalidCard(d, ce) && d == *deck && match ce {
            CardError::TooManyFaces(c, n) => n == deck.faces@.len() && c@.len() > n && exists|
                k: int,
            | 0 <= k < deck.cards@.len() && (#[trigger] deck.cards@[k])@ == c@,
            CardError::NotEnoughFaces(c, n) => n == deck.faces@.len() && c@.len() < n && exists|
                k: int,
            | 0 <= k < deck.cards@.len() && (#[trigger] deck.cards@[k])@ == c@,
            _ => false,
        }
    } else if !deck_cards_usable(deck) {
        e matches DeckError::InvalidCard(d, ce) && d == *deck
            && (ce matches CardError::NotEnoughUsableFaces(c) && count_present(c@) < 2 && exists|
            k: int,
        | 0 <= k < deck.cards@.len() && (#[trigger] deck.cards@[k])@ == c@)
    } else if !deck_no_empty_multi(deck) {
        e matches DeckError::InvalidCard(d, ce) && d == *deck
            && (ce matches CardError::EmptyFace(c) && !card_no_empty_multi(c@) && exists|k: int|
            0 <= k < deck.cards@.len() && (#[trigger] deck.cards@[k])@ == c@)
    } else if !deck_fronts_unique(deck) {
        e matches DeckError::InvalidCard(d, ce) && d == *deck
            && (ce matches CardError::DuplicateFront(b) && exists|k1: int, k2: int|
            0 <= k1 < k2 < deck.cards@.len() && first_present((#[trigger] deck.cards@[k1])@)
                == Some(b.0@) && first_present((#[trigger] deck.cards@[k2])@) == Some(b.0@) && b.1@
                == deck.cards@[k1]@ && b.2@ == deck.cards@[k2]@)
    } else {
        false
    }
}

/// The first position holding a string seen before, with the position of
/// the earlier occurrence.
fn find_duplicate_string(v: &Vec<String>) -> (r: Option<(usize, usize)>)
    ensures
        r is None <==> (forall|i: int, j: int|
            0 <= i < j < v@.len() ==> (#[trigger] v@[i])@ != (#[trigger] v@[j])@),
        r matches Some((i, j)) ==> i < j < v@.len() && v@[i as int]@ == v@[j as int]@ && (forall|
            a: int,
            b: int,
        | 0 <= a < b < j ==> (#[trigger] v@[a])@ != (#[trigger] v@[b])@),
{
    let n = v.len();
    let mut j: usize = 1;
    while j < n
        invariant
            1 <= j,
            n == v@.len(),
            forall|a: int, b: int| 0 <= a < b < j ==> (#[trigger] v@[a])@ != (#[trigger] v@[b])@,
        decreases n - j,
    {
        let mut i: usize = 0;
        while i < j
            invariant
                i <= j < n,
                n == v@.len(),
                forall|a: int, b: int| 0 <= a < b < j ==> (#[trigger] v@[a])@ != (#[trigger] v@[b])@,
                forall|a: int| 0 <= a < i ==> (#[trigger] v@[a])@ != v@[j as int]@,
            decreases j - i,
        {
            if v[i] == v[j] {
                return Some((i, j));
            }
            i = i + 1;
        }
        j = j + 1;
    }
    None
}

/// How many of the card's faces are present.
fn present_count_of(c: &Card) -> (r: usize)
    ensures
        r == count_present(c@),
{
    let n = c.face_count();
    let mut count: usize = 0;
    let mut i: usize = 0;
    while i < n
        invariant
            i <= n,
            n == c@.len(),
            count <= i,
            count == count_present(c@.take(i as int)),
        decreases n - i,
    {
        proof {
            lemma_count_present_take_step(c@, i as int);
        }
        if c.face_at(i).is_some() {
            count = count + 1;
        }
        i = i + 1;
    }
    proof {
        assert(c@.take(c@.len() as int) =~= c@);
    }
    count
}

/// Whether some present face of the card is a multi-value face without
/// values.
fn card_has_empty_multi(c: &Card) -> (r: bool)
    ensures
        r == !card_no_empty_multi(c@),
{
    let n = c.face_count();
    let mut i: usize = 0;
    while i < n
        invariant
            i <= n,
            n == c@.len(),
            forall|t: int|
                0 <= t < i ==> !((#[trigger] c@[t]) matches Some(FaceVal::Multi(m)) && m.len()
                    == 0),
        decreases n - i,
    {
        match c.face_at(i) {
            Some(face) => {
                match face {
                    Face::Multi(vals) => {
                        if vals.len() == 0 {
                            assert(c@[i as int] matches Some(FaceVal::Multi(m)) && m.len() == 0);
                            return true;
                        }
                    },
                    Face::Single(_) => {},
                }
            },
            None => {},
        }
        i = i + 1;
    }
    false
}

/// A copy of a face with the same value.
pub fn clone_face(f: &Face) -> (r: Face)
    ensures
        r@ == f@,
{
    match f {
        Face::Single(s) => Face::Single(s.clone()),
        Face::Multi(v) => Face::Multi(clone_string_vec(v)),
    }
}

/// A copy of a card with the same face values.
pub fn clone_card(c: &Card) -> (r: Card)
    ensures
        r@ == c@,
{
    let n = c.face_count();
    let mut buf: Vec<Option<Face>> = Vec::with_capacity(n);
    let mut i: usize = 0;
    while i < n
        invariant
            i <= n,
            n == c@.len(),
            buf.deep_view() =~= c@.take(i as int),
        decreases n - i,
    {
        let ghost before = buf.deep_view();
        match c.face_at(i) {
            Some(face) => {
                buf.push(Some(clone_face(face)));
            },
            None => {
                buf.push(None);
            },
        }
        proof {
            assert(buf.deep_view() =~= before.push(c@[i as int]));
            assert(c@.take(i + 1) =~= c@.take(i as int).push(c@[i as int]));
        }
        i = i + 1;
    }
    proof {
        assert(c@.take(c@.len() as int) =~= c@);
    }
    Card(buf)
}

/// First pair of cards sharing a front, scanning pairs in order.
fn find_duplicate_front(cards: &Vec<Card>) -> (r: Option<(usize, usize)>)
    ensures
        r is None <==> (forall|k1: int, k2: int|
            0 <= k1 < k2 < cards@.len() ==> !(first_present(
                (#[trigger] cards@[k1])@,
            ) matches Some(f) && first_present((#[trigger] cards@[k2])@) == Some(f))),
        r matches Some((k1, k2)) ==> k1 < k2 < cards@.len() && first_present(
            cards@[k1 as int]@,
        ) is Some && first_present(cards@[k1 as int]@) == first_present(cards@[k2 as int]@),
{
    let n = cards.len();
    let mut k2: usize = 1;
    while k2 < n
        invariant
            1 <= k2,
            n == cards@.len(),
            forall|a: int, b: int|
                0 <= a < b < k2 ==> !(first_present((#[trigger] cards@[a])@) matches Some(f)
                    && first_present((#[trigger] cards@[b])@) == Some(f)),
        decreases n - k2,
    {
        let mut k1: usize = 0;
        while k1 < k2
            invariant
                k1 <= k2 < n,
                n == cards@.len(),
                forall|a: int|
                    0 <= a < k1 ==> !(first_present((#[trigger] cards@[a])@) matches Some(f)
                        && first_present(cards@[k2 as int]@) == Some(f)),
            decreases k2 - k1,
        {
            let fa = cards[k1].front();
            let fb = cards[k2].front();
            match (fa, fb) {
                (Some(a), Some(b)) => {
                    if a == b {
                        return Some((k1, k2));
                    }
                },
                _ => {},
            }
            k1 = k1 + 1;
        }
        k2 = k2 + 1;
    }
    None
}

/// Checks a deck against all its invariants, in a fixed order, and hands
/// it back unchanged when they all hold; otherwise the first failing check
/// names the error.
pub fn validate_deck(deck: Deck) -> (r: Result<Deck, DeckError>)
    ensures
        r is Ok <==> deck_valid(&deck),
        r matches Ok(d) ==> d == deck,
        r matches Err(e) ==> expected_deck_error(&deck, e),
{
    let expected_face_count = deck.faces.len();
    if expected_face_count < 2 {
        return Err(DeckError::NotEnoughFaces(deck));
    }
    if let Some((i, j)) = find_duplicate_string(&deck.faces) {
        let face = deck.faces[i].clone();
        return Err(DeckError::DuplicateFace(deck, face));
    }
    let mut k: usize = 0;
    let n = deck.cards.len();
    while k < n
        invariant
            k <= n,
            n == deck.cards@.len(),
            deck_has_enough_faces(&deck),
            deck_faces_unique(&deck),
            forall|t: int|
                0 <= t < k ==> (#[trigger] deck.cards@[t])@.len() == deck.faces@.len(),
            expected_face_count == deck.faces@.len(),
        decreases n - k,
    {
        let have = deck.cards[k].face_count();
        if have != expected_face_count {
            let card = clone_card(&deck.cards[k]);
            proof {
                assert((#[trigger] deck.cards@[k as int])@ == card@);
                assert(!deck_cards_sized(&deck));
            }
            return Err(
                DeckError::InvalidCard(
                    deck,
                    if have > expected_face_count {
                        CardError::TooManyFaces(card, expected_face_count)
                    } else {
                        CardError::NotEnoughFaces(card, expected_face_count)
                    },
                ),
            );
        }
        k = k + 1;
    }
    assert(deck_cards_sized(&deck));
    let mut k: usize = 0;
    while k < n
        invariant
            k <= n,
            n == deck.cards@.len(),
            deck_has_enough_faces(&deck),
            deck_faces_unique(&deck),
            deck_cards_sized(&deck),
            forall|t: int| 0 <= t < k ==> count_present((#[trigger] deck.cards@[t])@) >= 2,
        decreases n - k,
    {
        if present_count_of(&deck.cards[k]) < 2 {
            let card = clone_card(&deck.cards[k]);
            proof {
                assert((#[trigger] deck.cards@[k as int])@ == card@);
                assert(!deck_cards_usable(&deck));
            }
            return Err(DeckError::InvalidCard(deck, CardError::NotEnoughUsableFaces(card)));
        }
        k = k + 1;
    }
    assert(deck_cards_usable(&deck));
    let mut k: usize = 0;
    while k < n
        invariant
            k <= n,
            n == deck.cards@.len(),
            deck_has_enough_faces(&deck),
            deck_faces_unique(&deck),
            deck_cards_sized(&deck),
            deck_cards_usable(&deck),
            forall|t: int| 0 <= t < k ==> card_no_empty_multi((#[trigger] deck.cards@[t])@),
        decreases n - k,
    {
        if card_has_empty_multi(&deck.cards[k]) {
            let card = clone_card(&deck.cards[k]);
            proof {
                assert((#[trigger] deck.cards@[k as int])@ == card@);
                assert(!deck_no_empty_multi(&deck));
            }
            return Err(DeckError::InvalidCard(deck, CardError::EmptyFace(card)));
        }
        k = k + 1;
    }
    assert(deck_no_empty_multi(&deck));
    if let Some((k1, k2)) = find_duplicate_front(&deck.cards) {
        let card_a = clone_card(&deck.cards[k1]);
        let card_b = clone_card(&deck.cards[k2]);
        let front = match card_a.front() {
            Some(f) => clone_face(f),
            None => unreached(),
        };
        return Err(
            DeckError::InvalidCard(
                deck,
                CardError::DuplicateFront(Box::new((front, card_a, card_b))),
            ),
        );
    }
    Ok(deck)
}

/// Deck names must be unique among the loaded decks.
pub open spec fn deck_names_unique(decks: Seq<Deck>) -> bool {
    forall|i: int, j: int|
        0 <= i < j < decks.len() ==> (#[trigger] decks[i]).name@ != (#[trigger] decks[j]).name@
}

/// Rejects a collection of decks in which two decks share a name.
pub fn validate_decks(decks: &Vec<Deck>) -> (r: Result<(), DeckError>)
    ensures
        r is Ok <==> deck_names_unique(decks@),
        r matches Err(e) ==> (e matches DeckError::DuplicateDeckNames(name) && exists|
            i: int,
            j: int,
        | 0 <= i < j < decks@.len() && (#[trigger] decks@[i]).name@ == (
        #[trigger] decks@[j]).name@ && decks@[i].name@ == name@),
{
    let n = decks.len();
    let mut j: usize = 1;
    while j < n
        invariant
            1 <= j,
            n == decks@.len(),
            forall|a: int, b: int|
                0 <= a < b < j ==> (#[trigger] decks@[a]).name@ != (#[trigger] decks@[b]).name@,
        decreases n - j,
    {
        let mut i: usize = 0;
        while i < j
            invariant
                i <= j < n,
                n == decks@.len(),
                forall|a: int|
                    0 <= a < i ==> (#[trigger] decks@[a]).name@ != decks@[j as int].name@,
            decreases j - i,
        {
            if decks[i].name == decks[j].name {
                let name = decks[i].name.clone();
                return Err(DeckError::DuplicateDeckNames(name));
            }
            i = i + 1;
        }
        j = j + 1;
    }
    Ok(())
}

} // verus!
