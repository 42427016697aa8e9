use vstd::prelude::*;
use crate::price::{parse_price, price_of, Price, PriceError};

verus! {

/// One listing of the results page; the title is its identity.
#[derive(Debug)]
pub struct Listing {
    pub title: String,
    pub contact_path: String,
    pub price: Price,
}

pub struct ListingView {
    pub title: Seq<char>,
    pub contact_path: Seq<char>,
    pub price: Price,
}

impl View for Listing {
    type V = ListingView;

    open spec fn view(&self) -> ListingView {
        ListingView { title: self.title@, contact_path: self.contact_path@, price: self.price }
    }
}

impl Listing {
    pub fn new(title: String, contact_path: String, price: Price) -> (r: Listing)
        ensures
            r.title == title,
            r.contact_path == contact_path,
            r.price == price,
    {
        Listing { title, contact_path, price }
    }

    pub fn duplicate(&self) -> (r: Listing)
        ensures
            r@ == self@,
    {
        Listing {
            title: self.title.clone(),
            contact_path: self.contact_path.clone(),
            price: self.price,
        }
    }
}

/// What was read from one result card: each part is absent when the card
/// lacks the element that holds it.
#[derive(Debug)]
pub struct RawCard {
    pub title: Option<String>,
    pub href: Option<String>,
    pub price_text: Option<String>,
}

pub struct RawCardView {
    pub title: Option<Seq<char>>,
    pub href: Option<Seq<char>>,
    pub price_text: Option<Seq<char>>,
}

pub open spec fn opt_view(o: Option<String>) -> Option<Seq<char>> {
    match o {
        Some(s) => Some(s@),
        None => None,
    }
}

impl View for RawCard {
    type V = RawCardView;

    open spec fn view(&self) -> RawCardView {
        RawCardView {
            title: opt_view(self.title),
            href: opt_view(self.href),
            price_text: opt_view(self.price_text),
        }
    }
}

pub open spec fn cards_view(cards: Seq<RawCard>) -> Seq<RawCardView> {
    cards.map_values(|c: RawCard| c@)
}

pub open spec fn listings_view(ls: Seq<Listing>) -> Seq<ListingView> {
    ls.map_values(|l: Listing| l@)
}

pub open spec fn has_title(v: Seq<ListingView>, t: Seq<char>) -> bool {
    exists|i: int| 0 <= i < v.len() && (#[trigger] v[i]).title == t
}

pub open spec fn titles_unique(v: Seq<ListingView>) -> bool {
    forall|i: int, j: int| 0 <= i < j < v.len() ==> (#[trigger] v[i]).title != (#[trigger] v[j]).title
}

/// The title, contact path and price text of a card that has all three and
/// a non-empty title; other cards are noise.
pub open spec fn card_parts(c: RawCardView) -> Option<(Seq<char>, Seq<char>, Seq<char>)> {
    match (c.title, c.href, c.price_text) {
        (Some(t), Some(h), Some(p)) => if t.len() > 0 { Some((t, h, p)) } else { None },
        _ => None,
    }
}

/// Adds one card to the listings read so far: noise is skipped, a bad price
/// fails, and a title already present keeps its first listing.
pub open spec fn add_card(acc: Seq<ListingView>, c: RawCardView) -> Result<Seq<ListingView>, PriceError> {
    match card_parts(c) {
        None => Ok(acc),
        Some((t, h, p)) => match price_of(p) {
            Err(e) => Err(e),
            Ok(price) => if has_title(acc, t) {
                Ok(acc)
            } else {
                Ok(acc.push(ListingView { title: t, contact_path: h, price }))
            },
        },
    }
}

/// The snapshot of a page whose cards are `cards`, in page order.
pub open spec fn extracted(cards: Seq<RawCardView>) -> Result<Seq<ListingView>, PriceError>
    decreases cards.len(),
{
    if cards.len() == 0 {
        Ok(Seq::empty())
    } else {
        match extracted(cards.drop_last()) {
            Err(e) => Err(e),
            Ok(acc) => add_card(acc, cards.last()),
        }
    }
}

/// The listings seen in one scan, at most one per title.
pub struct Snapshot {
    listings: Vec<Listing>,
}

impl View for Snapshot {
    type V = Seq<ListingView>;

    closed spec fn view(&self) -> Seq<ListingView> {
        listings_view(self.listings@)
    }
}

impl Snapshot {
    #[verifier::type_invariant]
    pub(crate) open spec fn titles_distinct(&self) -> bool {
        titles_unique(self@)
    }

    pub fn new() -> (r: Snapshot)
        ensures
            r@ == Seq::<ListingView>::empty(),
    {
        let r = Snapshot { listings: Vec::new() };
        assert(r@ =~= Seq::<ListingView>::empty());
        r
    }

    pub fn len(&self) -> (r: usize)
        ensures
            r == self@.len(),
    {
        self.listings.len()
    }

    pub fn get(&self, i: usize) -> (r: &Listing)
        requires
            i < self@.len(),
        ensures
            r@ == self@[i as int],
    {
        &self.listings[i]
    }

    pub fn contains_title(&self, title: &str) -> (r: bool)
        ensures
            r == has_title(self@, title@),
    {
        let key = title.to_owned();
        let mut i: usize = 0;
        while i < self.listings.len()
            invariant
                i <= self@.len(),
                key@ == title@,
                forall|j: int| 0 <= j < i ==> (#[trigger] self@[j]).title != title@,
            decreases self.listings.len() - i,
        {
            assert(self@[i as int] == self.listings@[i as int]@);
            if self.listings[i].title == key {
                assert(self@[i as int].title == title@);
                return true;
            }
            i = i + 1;
        }
        false
    }

    /// Looks a listing up by its title.
    pub fn find(&self, title: &str) -> (r: Option<&Listing>)
        ensures
            r is None <==> !has_title(self@, title@),
            r matches Some(l) ==> l@.title == title@ && self@.contains(l@),
    {
        let key = title.to_owned();
        let mut i: usize = 0;
        while i < self.listings.len()
            invariant
                i <= self@.len(),
                key@ == title@,
                forall|j: int| 0 <= j < i ==> (#[trigger] self@[j]).title != title@,
            decreases self.listings.len() - i,
        {
            assert(self@[i as int] == self.listings@[i as int]@);
            if self.listings[i].title == key {
                assert(self@[i as int].title == title@);
                return Some(&self.listings[i]);
            }
            i = i + 1;
        }
        None
    }

    /// Adds `l` unless a listing with its title is already there: the first
    /// one seen wins. Returns whether it was added.
    pub fn insert_first(&mut self, l: Listing) -> (added: bool)
        ensures
            added == !has_title(old(self)@, l@.title),
            added ==> final(self)@ == old(self)@.push(l@),
            !added ==> final(self)@ == old(self)@,
    {
        proof {
            use_type_invariant(&*self);
        }
        if self.contains_title(l.title.as_str()) {
            return false;
        }
        let ghost lv = l@;
        let mut taken = Snapshot::new();
        core::mem::swap(self, &mut taken);
        let mut listings = taken.listings;
        listings.push(l);
        assert(listings_view(listings@) =~= old(self)@.push(lv));
        proof {
            let v = listings_view(listings@);
            assert forall|i: int, j: int| 0 <= i < j < v.len() implies (#[trigger] v[i]).title
                != (#[trigger] v[j]).title by {
                if j == v.len() - 1 {
                    assert(old(self)@[i] == v[i]);
                } else {
                    assert(old(self)@[i] == v[i] && old(self)@[j] == v[j]);
                }
            }
        }
        *self = Snapshot { listings };
        true
    }
}

proof fn lemma_failure_persists(cards: Seq<RawCardView>, k: int, e: PriceError)
    requires
        0 <= k <= cards.len(),
        extracted(cards.subrange(0, k)) == Err::<Seq<ListingView>, PriceError>(e),
    ensures
        extracted(cards) == Err::<Seq<ListingView>, PriceError>(e),
    decreases cards.len() - k,
{
    if k == cards.len() {
        assert(cards.subrange(0, k) =~= cards);
    } else {
        assert(cards.subrange(0, k + 1).drop_last() =~= cards.subrange(0, k));
        lemma_failure_persists(cards, k + 1, e);
    }
}

pub open spec fn card_title(c: RawCardView) -> Option<Seq<char>> {
    match card_parts(c) {
        Some((t, _, _)) => Some(t),
        None => None,
    }
}

proof fn lemma_titles_come_from_cards(cards: Seq<RawCardView>)
    requires
        extracted(cards) is Ok,
    ensures
        forall|k: int|
            0 <= k < (extracted(cards)->Ok_0).len() ==> exists|j: int|
                0 <= j < cards.len() && #[trigger] card_title(cards[j]) == Some((#[trigger] (extracted(cards)->Ok_0)[k]).title),
    decreases cards.len(),
{
    if cards.len() > 0 {
        let rest = cards.drop_last();
        lemma_titles_come_from_cards(rest);
        let acc = extracted(rest)->Ok_0;
        let v = extracted(cards)->Ok_0;
        assert forall|k: int| 0 <= k < v.len() implies exists|j: int|
            0 <= j < cards.len() && #[trigger] card_title(cards[j]) == Some((#[trigger] v[k]).title) by {
            if k < acc.len() {
                assert(v[k] == acc[k]);
                let j = choose|j: int| 0 <= j < rest.len() && #[trigger] card_title(rest[j]) == Some(acc[k].title);
                assert(cards[j] == rest[j]);
            } else {
                assert(card_title(cards[cards.len() - 1]) == Some(v[k].title));
            }
        }
    }
}

/// A snapshot read from a page holds at most one listing per title.
pub proof fn lemma_extracted_titles_unique(cards: Seq<RawCardView>)
    requires
        extracted(cards) is Ok,
    ensures
        titles_unique(extracted(cards)->Ok_0),
    decreases cards.len(),
{
    if cards.len() > 0 {
        let acc = extracted(cards.drop_last())->Ok_0;
        lemma_extracted_titles_unique(cards.drop_last());
        let v = extracted(cards)->Ok_0;
        assert forall|i: int, j: int| 0 <= i < j < v.len() implies (#[trigger] v[i]).title
            != (#[trigger] v[j]).title by {
            if j == acc.len() {
                assert(v[i] == acc[i]);
            } else {
                assert(v[i] == acc[i] && v[j] == acc[j]);
            }
        }
    }
}

/// Every card that has a title, a link and a price text has a readable price.
pub open spec fn prices_readable(cards: Seq<RawCardView>) -> bool {
    forall|j: int| 0 <= j < cards.len() && (#[trigger] card_parts(cards[j])) is Some ==> price_of(
        (card_parts(cards[j])->Some_0).2,
    ) is Ok
}

/// A page whose complete cards all have readable prices scans successfully.
pub proof fn lemma_readable_page_scans(cards: Seq<RawCardView>)
    requires
        prices_readable(cards),
    ensures
        extracted(cards) is Ok,
    decreases cards.len(),
{
    if cards.len() > 0 {
        let rest = cards.drop_last();
        assert forall|j: int| 0 <= j < rest.len() && (#[trigger] card_parts(rest[j])) is Some implies price_of(
            (card_parts(rest[j])->Some_0).2,
        ) is Ok by {
            assert(rest[j] == cards[j]);
        }
        lemma_readable_page_scans(rest);
        let last = cards.len() - 1;
        if card_parts(cards[last]) is Some {
            assert(price_of((card_parts(cards[last])->Some_0).2) is Ok);
        }
    }
}

/// When several cards of a page share a title, the snapshot holds that title
/// once, with the data of the first complete card that carries it. The page
/// must scan: one unreadable price on it fails the whole scan.
pub proof fn lemma_first_card_wins(cards: Seq<RawCardView>, i: int)
    requires
        prices_readable(cards),
        0 <= i < cards.len(),
        card_parts(cards[i]) is Some,
        forall|j: int| 0 <= j < i ==> #[trigger] card_title(cards[j]) != card_title(cards[i]),
    ensures
        ({
            let (t, h, p) = card_parts(cards[i])->Some_0;
            let v = extracted(cards)->Ok_0;
            &&& extracted(cards) is Ok
            &&& price_of(p) is Ok
            &&& titles_unique(v)
            &&& exists|k: int|
                0 <= k < v.len() && #[trigger] v[k] == ListingView {
                    title: t,
                    contact_path: h,
                    price: price_of(p)->Ok_0,
                }
        }),
    decreases cards.len(),
{
    lemma_readable_page_scans(cards);
    lemma_extracted_titles_unique(cards);
    let (t, h, p) = card_parts(cards[i])->Some_0;
    let rest = cards.drop_last();
    let acc = extracted(rest)->Ok_0;
    let v = extracted(cards)->Ok_0;
    if i == cards.len() - 1 {
        if has_title(acc, t) {
            lemma_titles_come_from_cards(rest);
            let k = choose|k: int| 0 <= k < acc.len() && (#[trigger] acc[k]).title == t;
            let j = choose|j: int| 0 <= j < rest.len() && #[trigger] card_title(rest[j]) == Some(acc[k].title);
            assert(rest[j] == cards[j]);
        }
        assert(v[acc.len() as int] == ListingView { title: t, contact_path: h, price: price_of(p)->Ok_0 });
    } else {
        assert(rest[i] == cards[i]);
        assert forall|j: int| 0 <= j < rest.len() && (#[trigger] card_parts(rest[j])) is Some implies price_of(
            (card_parts(rest[j])->Some_0).2,
        ) is Ok by {
            assert(rest[j] == cards[j]);
        }
        assert forall|j: int| 0 <= j < i implies #[trigger] card_title(rest[j]) != card_title(rest[i]) by {
            assert(rest[j] == cards[j]);
        }
        lemma_first_card_wins(rest, i);
        let k = choose|k: int|
            0 <= k < acc.len() && #[trigger] acc[k] == ListingView {
                title: t,
                contact_path: h,
                price: price_of(p)->Ok_0,
            };
        assert(v[k] == acc[k]);
    }
}

/// Builds the snapshot of a results page from its cards, in page order.
/// Cards that lack a title, a link or a price are skipped; a price that
/// cannot be read fails the whole scan; the first card of a title wins.
pub fn extract_listings(cards: &Vec<RawCard>) -> (r: Result<Snapshot, PriceError>)
    ensures
        r matches Ok(snap) ==> extracted(cards_view(cards@)) == Ok::<Seq<ListingView>, PriceError>(snap@),
        r matches Err(e) ==> extracted(cards_view(cards@)) == Err::<Seq<ListingView>, PriceError>(e),
{
    let mut snap = Snapshot::new();
    let mut i: usize = 0;
    while i < cards.len()
        invariant
            i <= cards@.len(),
            extracted(cards_view(cards@).subrange(0, i as int)) == Ok::<Seq<ListingView>, PriceError>(snap@),
        decreases cards.len() - i,
    {
        let card = &cards[i];
        proof {
            assert(cards_view(cards@).subrange(0, i + 1).drop_last() =~= cards_view(cards@).subrange(0, i as int));
            assert(cards_view(cards@).subrange(0, i + 1).last() == card@);
        }
        match (&card.title, &card.href, &card.price_text) {
            (Some(t), Some(h), Some(p)) => {
                if t.as_str().unicode_len() > 0 {
                    match parse_price(p.as_str()) {
                        Err(e) => {
                            proof {
                                lemma_failure_persists(cards_view(cards@), i + 1, e);
                            }
                            return Err(e);
                        },
                        Ok(price) => {
                            let l = Listing { title: t.clone(), contact_path: h.clone(), price };
                            snap.insert_first(l);
                        },
                    }
                }
            },
            _ => {},
        }
        i = i + 1;
    }
    assert(cards_view(cards@).subrange(0, i as int) =~= cards_view(cards@));
    Ok(snap)
}

} // verus!
