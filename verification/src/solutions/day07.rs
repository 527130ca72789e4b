//! Card hands: each line holds five cards and a bet; hands are ranked by
//! type (jokers count as the most frequent card) and then card by card, and
//! each bet is weighted by the hand's position in the sorted order.

use vstd::prelude::*;
use vstd::array::group_array_axioms;
use crate::text::{chars_of, lines_of, slice_chars, parse_u32, spec_lines, spec_parse_u32};

verus! {

#[derive(PartialEq, Eq, PartialOrd, Ord, Copy, Clone, Debug)]
pub enum Card {
    Joker,
    Two,
    Three,
    Four,
    Five,
    Six,
    Seven,
    Eight,
    Nine,
    Ten,
    Queen,
    King,
    Ace,
}

/// The strength of a card, lowest first.
pub open spec fn card_rank(c: Card) -> int {
    match c {
        Card::Joker => 0,
        Card::Two => 1,
        Card::Three => 2,
        Card::Four => 3,
        Card::Five => 4,
        Card::Six => 5,
        Card::Seven => 6,
        Card::Eight => 7,
        Card::Nine => 8,
        Card::Ten => 9,
        Card::Queen => 10,
        Card::King => 11,
        Card::Ace => 12,
    }
}

/// The card a character names, if any.
pub open spec fn spec_card(c: char) -> Option<Card> {
    match c {
        'J' => Some(Card::Joker),
        '2' => Some(Card::Two),
        '3' => Some(Card::Three),
        '4' => Some(Card::Four),
        '5' => Some(Card::Five),
        '6' => Some(Card::Six),
        '7' => Some(Card::Seven),
        '8' => Some(Card::Eight),
        '9' => Some(Card::Nine),
        'T' => Some(Card::Ten),
        'Q' => Some(Card::Queen),
        'K' => Some(Card::King),
        'A' => Some(Card::Ace),
        _ => None,
    }
}

impl Card {
    pub fn from_char(c: char) -> (r: Option<Card>)
        ensures
            r == spec_card(c),
    {
        match c {
            'J' => Some(Card::Joker),
            '2' => Some(Card::Two),
            '3' => Some(Card::Three),
            '4' => Some(Card::Four),
            '5' => Some(Card::Five),
            '6' => Some(Card::Six),
            '7' => Some(Card::Seven),
            '8' => Some(Card::Eight),
            '9' => Some(Card::Nine),
            'T' => Some(Card::Ten),
            'Q' => Some(Card::Queen),
            'K' => Some(Card::King),
            'A' => Some(Card::Ace),
            _ => None,
        }
    }

    /// This card's strength.
    pub fn rank(&self) -> (r: u8)
        ensures
            r as int == card_rank(*self),
    {
        match self {
            Card::Joker => 0,
            Card::Two => 1,
            Card::Three => 2,
            Card::Four => 3,
            Card::Five => 4,
            Card::Six => 5,
            Card::Seven => 6,
            Card::Eight => 7,
            Card::Nine => 8,
            Card::Ten => 9,
            Card::Queen => 10,
            Card::King => 11,
            Card::Ace => 12,
        }
    }
}

#[derive(PartialEq, Eq, PartialOrd, Ord, Copy, Clone, Debug)]
pub enum HandType {
    HighCard,
    OnePair,
    TwoPair,
    ThreeOfAKind,
    FullHouse,
    FourOfAKind,
    FiveOfAKind,
}

pub open spec fn type_rank(t: HandType) -> int {
    match t {
        HandType::HighCard => 0,
        HandType::OnePair => 1,
        HandType::TwoPair => 2,
        HandType::ThreeOfAKind => 3,
        HandType::FullHouse => 4,
        HandType::FourOfAKind => 5,
        HandType::FiveOfAKind => 6,
    }
}

/// How many cards of strength `rank` the hand holds.
pub open spec fn count_of(cards: Seq<Card>, rank: int) -> int
    decreases cards.len(),
{
    if cards.len() == 0 {
        0
    } else {
        count_of(cards.drop_last(), rank) + (if card_rank(cards.last()) == rank {
            1int
        } else {
            0int
        })
    }
}

/// The largest and second-largest non-joker frequency among strengths
/// `1 ..= r`.
pub open spec fn best_two(cards: Seq<Card>, r: int) -> (int, int)
    decreases r,
{
    if r <= 0 {
        (0, 0)
    } else {
        let c = count_of(cards, r);
        let rest = best_two(cards, r - 1);
        if c >= rest.0 {
            (c, rest.0)
        } else if c > rest.1 {
            (rest.0, c)
        } else {
            rest
        }
    }
}

/// The type of a hand, jokers counting towards the most frequent card.
pub open spec fn spec_hand_type(cards: Seq<Card>) -> HandType {
    let jokers = count_of(cards, 0);
    let fst = best_two(cards, 12).0;
    let snd = best_two(cards, 12).1;
    if fst + jokers == 5 {
        HandType::FiveOfAKind
    } else if fst + jokers == 4 {
        HandType::FourOfAKind
    } else if fst + jokers == 3 && snd == 2 {
        HandType::FullHouse
    } else if fst + jokers == 3 {
        HandType::ThreeOfAKind
    } else if fst + jokers == 2 && snd == 2 {
        HandType::TwoPair
    } else if fst + jokers == 2 {
        HandType::OnePair
    } else {
        HandType::HighCard
    }
}

pub proof fn lemma_count_of_bounds(cards: Seq<Card>, rank: int)
    ensures
        0 <= count_of(cards, rank) <= cards.len(),
    decreases cards.len(),
{
    if cards.len() > 0 {
        lemma_count_of_bounds(cards.drop_last(), rank);
    }
}

pub proof fn lemma_best_two_bounds(cards: Seq<Card>, r: int)
    ensures
        0 <= best_two(cards, r).1 <= best_two(cards, r).0 <= cards.len(),
    decreases r,
{
    if r > 0 {
        lemma_best_two_bounds(cards, r - 1);
        lemma_count_of_bounds(cards, r);
    }
}

impl HandType {
    /// Ranks five cards, jokers counting towards the most frequent card.
    pub fn from_cards(cards: [Card; 5]) -> (r: HandType)
        ensures
            r == spec_hand_type(cards@),
    {
        let jokers = count_rank(&cards, 0);
        let mut fst: u8 = 0;
        let mut snd: u8 = 0;
        let mut rank: u8 = 1;
        while rank <= 12
            invariant
                1 <= rank <= 13,
                fst as int == best_two(cards@, rank as int - 1).0,
                snd as int == best_two(cards@, rank as int - 1).1,
                fst <= 5,
                snd <= 5,
            decreases 13 - rank,
        {
            let c = count_rank(&cards, rank);
            proof {
                lemma_count_of_bounds(cards@, rank as int);
                lemma_best_two_bounds(cards@, rank as int - 1);
            }
            if c >= fst {
                snd = fst;
                fst = c;
            } else if c > snd {
                snd = c;
            }
            rank = rank + 1;
        }
        proof {
            lemma_count_of_bounds(cards@, 0);
        }
        if fst + jokers == 5 {
            HandType::FiveOfAKind
        } else if fst + jokers == 4 {
            HandType::FourOfAKind
        } else if fst + jokers == 3 && snd == 2 {
            HandType::FullHouse
        } else if fst + jokers == 3 {
            HandType::ThreeOfAKind
        } else if fst + jokers == 2 && snd == 2 {
            HandType::TwoPair
        } else if fst + jokers == 2 {
            HandType::OnePair
        } else {
            HandType::HighCard
        }
    }

    pub fn rank(&self) -> (r: u8)
        ensures
            r as int == type_rank(*self),
    {
        match self {
            HandType::HighCard => 0,
            HandType::OnePair => 1,
            HandType::TwoPair => 2,
            HandType::ThreeOfAKind => 3,
            HandType::FullHouse => 4,
            HandType::FourOfAKind => 5,
            HandType::FiveOfAKind => 6,
        }
    }
}

/// Counts the cards of one strength.
fn count_rank(cards: &[Card; 5], rank: u8) -> (r: u8)
    ensures
        r as int == count_of(cards@, rank as int),
        r <= 5,
{
    let mut r: u8 = 0;
    let mut i: usize = 0;
    proof {
        assert(cards@.take(0) =~= Seq::<Card>::empty());
        lemma_count_of_bounds(cards@.take(0), rank as int);
    }
    while i < 5
        invariant
            0 <= i <= 5,
            cards@.len() == 5,
            r as int == count_of(cards@.take(i as int), rank as int),
            r <= i,
        decreases 5 - i,
    {
        let c = cards[i];
        proof {
            assert(cards@.take(i + 1).drop_last() =~= cards@.take(i as int));
            assert(cards@.take(i + 1).last() == c);
        }
        if c.rank() == rank {
            r = r + 1;
        }
        i = i + 1;
    }
    proof {
        assert(cards@.take(5) =~= cards@);
    }
    r
}

/// One line's hand: its type, its five cards, and its bet.
#[derive(PartialEq, Eq, PartialOrd, Ord, Copy, Clone)]
pub struct Hand {
    pub hand_type: HandType,
    pub cards: [Card; 5],
    pub bet: u32,
}

/// Strict ordering of hands: by type, then card by card, then by bet —
/// exactly the derived lexicographic order.
pub open spec fn spec_hand_lt(a: Hand, b: Hand) -> bool {
    if type_rank(a.hand_type) != type_rank(b.hand_type) {
        type_rank(a.hand_type) < type_rank(b.hand_type)
    } else if a.cards@ != b.cards@ {
        cards_lt(a.cards@, b.cards@, 0)
    } else {
        a.bet < b.bet
    }
}

/// Lexicographic comparison of equal-length card sequences from index `i`.
pub open spec fn cards_lt(a: Seq<Card>, b: Seq<Card>, i: int) -> bool
    decreases a.len() - i,
{
    if i < 0 || i >= a.len() || i >= b.len() {
        false
    } else if card_rank(a[i]) != card_rank(b[i]) {
        card_rank(a[i]) < card_rank(b[i])
    } else {
        cards_lt(a, b, i + 1)
    }
}

/// Compares two hands in the sort order.
pub fn hand_lt(a: &Hand, b: &Hand) -> (r: bool)
    ensures
        r == spec_hand_lt(*a, *b),
{
    let ta = a.hand_type.rank();
    let tb = b.hand_type.rank();
    if ta != tb {
        return ta < tb;
    }
    let mut i: usize = 0;
    while i < 5
        invariant
            0 <= i <= 5,
            a.cards@.len() == 5,
            b.cards@.len() == 5,
            forall|q: int| 0 <= q < i ==> card_rank(a.cards@[q]) == card_rank(b.cards@[q]),
            type_rank(a.hand_type) == type_rank(b.hand_type),
        decreases 5 - i,
    {
        let ra = a.cards[i].rank();
        let rb = b.cards[i].rank();
        if ra != rb {
            proof {
                lemma_cards_lt_at(a.cards@, b.cards@, i as int);
                lemma_rank_injective(a.cards@[i as int], b.cards@[i as int]);
                assert(a.cards@ != b.cards@);
                lemma_type_rank_injective(a.hand_type, b.hand_type);
            }
            return ra < rb;
        }
        i = i + 1;
    }
    proof {
        lemma_type_rank_injective(a.hand_type, b.hand_type);
        assert forall|q: int| 0 <= q < 5 implies a.cards@[q] == b.cards@[q] by {
            lemma_rank_injective(a.cards@[q], b.cards@[q]);
        }
        assert(a.cards@ =~= b.cards@);
    }
    a.bet < b.bet
}

/// Equal ranks name equal cards.
pub proof fn lemma_rank_injective(a: Card, b: Card)
    ensures
        card_rank(a) == card_rank(b) ==> a == b,
{
}

pub proof fn lemma_type_rank_injective(a: HandType, b: HandType)
    ensures
        type_rank(a) == type_rank(b) ==> a == b,
{
}

/// When the first difference of two card sequences is at `i`, the
/// lexicographic order is decided there.
pub proof fn lemma_cards_lt_at(a: Seq<Card>, b: Seq<Card>, i: int)
    requires
        0 <= i < a.len(),
        i < b.len(),
        forall|q: int| 0 <= q < i ==> card_rank(a[q]) == card_rank(b[q]),
        card_rank(a[i]) != card_rank(b[i]),
    ensures
        cards_lt(a, b, 0) == (card_rank(a[i]) < card_rank(b[i])),
    decreases i,
{
    lemma_cards_lt_from(a, b, 0, i);
}

pub proof fn lemma_cards_lt_from(a: Seq<Card>, b: Seq<Card>, j: int, i: int)
    requires
        0 <= j <= i < a.len(),
        i < b.len(),
        forall|q: int| j <= q < i ==> card_rank(a[q]) == card_rank(b[q]),
        card_rank(a[i]) != card_rank(b[i]),
    ensures
        cards_lt(a, b, j) == (card_rank(a[i]) < card_rank(b[i])),
    decreases i - j,
{
    if j < i {
        lemma_cards_lt_from(a, b, j + 1, i);
    }
}

/// Inserts a hand into a sorted sequence, scanning from the back.
pub open spec fn insert_hand(sorted: Seq<Hand>, h: Hand) -> Seq<Hand>
    decreases sorted.len(),
{
    if sorted.len() == 0 {
        seq![h]
    } else if spec_hand_lt(h, sorted.last()) {
        insert_hand(sorted.drop_last(), h).push(sorted.last())
    } else {
        sorted.push(h)
    }
}

/// Insertion sort of hands, in input order.
pub open spec fn sort_hands(hs: Seq<Hand>) -> Seq<Hand>
    decreases hs.len(),
{
    if hs.len() == 0 {
        Seq::empty()
    } else {
        insert_hand(sort_hands(hs.drop_last()), hs.last())
    }
}

/// The insertion point found by the backward scan pins the result.
pub proof fn lemma_insert_hand_at(s: Seq<Hand>, h: Hand, j: int)
    requires
        0 <= j <= s.len(),
        forall|k: int| j <= k < s.len() ==> spec_hand_lt(h, #[trigger] s[k]),
        j > 0 ==> !spec_hand_lt(h, s[j - 1]),
    ensures
        insert_hand(s, h) == s.subrange(0, j).push(h) + s.subrange(j, s.len() as int),
    decreases s.len() - j,
{
    if j == s.len() {
        if s.len() == 0 {
            assert(insert_hand(s, h) =~= s.subrange(0, j).push(h) + s.subrange(
                j,
                s.len() as int,
            ));
        } else {
            assert(s.subrange(0, j) =~= s);
            assert(insert_hand(s, h) =~= s.subrange(0, j).push(h) + s.subrange(
                j,
                s.len() as int,
            ));
        }
    } else {
        assert(spec_hand_lt(h, s.last()));
        let pre = s.drop_last();
        assert(forall|k: int| j <= k < pre.len() ==> spec_hand_lt(h, #[trigger] pre[k]));
        lemma_insert_hand_at(pre, h, j);
        assert(pre.subrange(0, j) =~= s.subrange(0, j));
        assert(insert_hand(s, h) == insert_hand(pre, h).push(s.last()));
        assert(insert_hand(pre, h).push(s.last()) =~= s.subrange(0, j).push(h) + s.subrange(
            j,
            s.len() as int,
        ));
    }
}

/// The weighted total: each bet times its one-based position.
pub open spec fn spec_total(hs: Seq<Hand>) -> int
    decreases hs.len(),
{
    if hs.len() == 0 {
        0
    } else {
        spec_total(hs.drop_last()) + hs.len() * hs.last().bet
    }
}

pub proof fn lemma_spec_total_prefix(hs: Seq<Hand>, k: int)
    requires
        0 <= k <= hs.len(),
    ensures
        0 <= spec_total(hs.subrange(0, k)) <= spec_total(hs),
    decreases hs.len() - k, k,
{
    lemma_spec_total_nonneg(hs.subrange(0, k));
    if k < hs.len() {
        lemma_spec_total_prefix(hs, k + 1);
        let p = hs.subrange(0, k + 1);
        assert(p.drop_last() =~= hs.subrange(0, k));
        assert(p.len() * p.last().bet >= 0) by (nonlinear_arith)
            requires
                p.len() >= 0,
                p.last().bet >= 0,
        ;
    } else {
        assert(hs.subrange(0, k) =~= hs);
    }
}

pub proof fn lemma_spec_total_nonneg(hs: Seq<Hand>)
    ensures
        spec_total(hs) >= 0,
    decreases hs.len(),
{
    if hs.len() > 0 {
        lemma_spec_total_nonneg(hs.drop_last());
        assert(hs.len() * hs.last().bet >= 0) by (nonlinear_arith)
            requires
                hs.len() >= 0,
                hs.last().bet >= 0,
        ;
    }
}

/// What one line must look like to be a hand: cards, one space, a bet.
pub open spec fn line_ok(line: Seq<char>) -> bool {
    let sp = crate::text::next_sep(line, 0, ' ');
    &&& sp < line.len()
    &&& sp <= 5
    &&& forall|q: int| 0 <= q < sp ==> spec_card(#[trigger] line[q]) is Some
    &&& spec_parse_u32(line.subrange(sp + 1, line.len() as int)) is Some
}

/// The five cards of a line: the characters before the space, padded with
/// aces.
pub open spec fn spec_cards(line: Seq<char>) -> Seq<Card> {
    let sp = crate::text::next_sep(line, 0, ' ');
    Seq::new(
        5,
        |i: int|
            if i < sp {
                spec_card(line[i])->Some_0
            } else {
                Card::Ace
            },
    )
}

pub open spec fn spec_bet(line: Seq<char>) -> u32 {
    let sp = crate::text::next_sep(line, 0, ' ');
    spec_parse_u32(line.subrange(sp + 1, line.len() as int))->Some_0
}

/// `h` is exactly the hand that `line` declares.
pub open spec fn hand_matches(h: Hand, line: Seq<char>) -> bool {
    &&& h.cards@ == spec_cards(line)
    &&& h.bet == spec_bet(line)
    &&& h.hand_type == spec_hand_type(spec_cards(line))
}

pub open spec fn hands_match(hs: Seq<Hand>, ls: Seq<Seq<char>>) -> bool {
    &&& hs.len() == ls.len()
    &&& forall|i: int| 0 <= i < hs.len() ==> hand_matches(#[trigger] hs[i], ls[i])
}

/// Two hand sequences matching the same lines are the same sequence.
pub proof fn lemma_hands_match_unique(a: Seq<Hand>, b: Seq<Hand>, ls: Seq<Seq<char>>)
    requires
        hands_match(a, ls),
        hands_match(b, ls),
    ensures
        a == b,
{
    broadcast use group_array_axioms;

    assert forall|i: int| 0 <= i < a.len() implies a[i] == b[i] by {
        assert(a[i].cards@ =~= b[i].cards@);
        assert(a[i].cards =~= b[i].cards);
    }
    assert(a =~= b);
}

/// Reads one hand from a line.
pub fn parse_hand(line: &Vec<char>) -> (r: Hand)
    requires
        line_ok(line@),
    ensures
        hand_matches(r, line@),
{
    let n = line.len();
    let mut sp: usize = 0;
    proof {
        crate::text::lemma_next_sep(line@, 0, ' ');
    }
    while sp < n
        invariant
            0 <= sp <= n,
            n == line@.len(),
            forall|q: int| 0 <= q < sp ==> line@[q] != ' ',
        ensures
            0 <= sp <= n,
            forall|q: int| 0 <= q < sp ==> line@[q] != ' ',
            sp < n ==> line@[sp as int] == ' ',
        decreases n - sp,
    {
        if line[sp] == ' ' {
            break;
        }
        sp = sp + 1;
    }
    proof {
        crate::text::lemma_next_sep_exact(line@, 0, sp as int, ' ');
        assert(sp < n);
        assert(sp as int == crate::text::next_sep(line@, 0, ' '));
    }
    proof {
        broadcast use group_array_axioms;
    }
    let mut cards: [Card; 5] = [Card::Ace; 5];
    let mut i: usize = 0;
    while i < sp
        invariant
            0 <= i <= sp,
            sp <= 5,
            sp < n,
            n == line@.len(),
            sp as int == crate::text::next_sep(line@, 0, ' '),
            line_ok(line@),
            cards@.len() == 5,
            forall|q: int| 0 <= q < i ==> cards@[q] == spec_card(line@[q])->Some_0,
            forall|q: int| i <= q < 5 ==> cards@[q] == Card::Ace,
        decreases sp - i,
    {
        let c = match Card::from_char(line[i]) {
            Some(c) => c,
            None => {
                proof {
                    assert(false);
                }
                Card::Ace
            },
        };
        cards[i] = c;
        i = i + 1;
    }
    proof {
        assert(cards@ =~= spec_cards(line@));
    }
    let bet_piece = slice_chars(line, sp + 1, n);
    let bet = match parse_u32(&bet_piece) {
        Some(b) => b,
        None => {
            proof {
                assert(false);
            }
            0
        },
    };
    let hand_type = HandType::from_cards(cards);
    Hand { hand_type, cards, bet }
}

/// Every line is a hand, and the weighted total fits the result type.
pub open spec fn day_ok(s: Seq<char>) -> bool {
    &&& forall|i: int| 0 <= i < spec_lines(s).len() ==> line_ok(#[trigger] spec_lines(s)[i])
    &&& forall|hs: Seq<Hand>|
        hands_match(hs, spec_lines(s)) ==> #[trigger] spec_total(sort_hands(hs)) <= u32::MAX
}

/// This puzzle's first half was never taken up; it reports nothing.
pub fn part_one(input: &str) -> (r: u32)
    ensures
        r == 0,
{
    let _ = input;
    0
}

/// The sum over all hands, sorted ascending, of the bet times the hand's
/// one-based position.
pub fn part_two(input: &str) -> (r: u32)
    requires
        day_ok(input@),
    ensures
        forall|hs: Seq<Hand>|
            hands_match(hs, spec_lines(input@)) ==> r as int == #[trigger] spec_total(
                sort_hands(hs),
            ),
{
    let cs = chars_of(input);
    let ls = lines_of(&cs);
    let ghost lv = crate::text::views(ls@);
    let n = ls.len();
    let mut hands: Vec<Hand> = Vec::new();
    let mut i: usize = 0;
    while i < n
        invariant
            0 <= i <= n,
            n == ls@.len(),
            n == lv.len(),
            lv == crate::text::views(ls@),
            forall|k: int| 0 <= k < lv.len() ==> line_ok(#[trigger] lv[k]),
            hands_match(hands@, lv.subrange(0, i as int)),
        decreases n - i,
    {
        proof {
            assert(lv[i as int] == ls@[i as int]@);
        }
        let h = parse_hand(&ls[i]);
        hands.push(h);
        proof {
            assert(lv.subrange(0, i + 1) =~= lv.subrange(0, i as int).push(lv[i as int]));
            assert(hands_match(hands@, lv.subrange(0, i + 1)));
        }
        i = i + 1;
    }
    proof {
        assert(lv.subrange(0, n as int) =~= lv);
    }
    let ghost parsed = hands@;
    // Insertion sort by the hand order.
    let mut sorted: Vec<Hand> = Vec::new();
    let mut i2: usize = 0;
    proof {
        assert(parsed.take(0) =~= Seq::<Hand>::empty());
        assert(sorted@ =~= sort_hands(parsed.take(0)));
    }
    while i2 < hands.len()
        invariant
            0 <= i2 <= hands@.len(),
            hands@ == parsed,
            sorted@ == sort_hands(parsed.take(i2 as int)),
        decreases hands@.len() - i2,
    {
        let h = hands[i2];
        let mut j: usize = sorted.len();
        while j > 0
            invariant
                0 <= j <= sorted@.len(),
                forall|k: int| j <= k < sorted@.len() ==> spec_hand_lt(h, #[trigger] sorted@[k]),
            ensures
                0 <= j <= sorted@.len(),
                forall|k: int| j <= k < sorted@.len() ==> spec_hand_lt(h, #[trigger] sorted@[k]),
                j > 0 ==> !spec_hand_lt(h, sorted@[j - 1]),
            decreases j,
        {
            if !hand_lt(&h, &sorted[j - 1]) {
                break;
            }
            j = j - 1;
        }
        let ghost old_sorted = sorted@;
        sorted.insert(j, h);
        proof {
            lemma_insert_hand_at(old_sorted, h, j as int);
            assert(sorted@ =~= old_sorted.subrange(0, j as int).push(h) + old_sorted.subrange(
                j as int,
                old_sorted.len() as int,
            ));
            assert(parsed.take(i2 + 1).drop_last() =~= parsed.take(i2 as int));
            assert(parsed.take(i2 + 1).last() == h);
            assert(sorted@ == insert_hand(old_sorted, h));
        }
        i2 = i2 + 1;
    }
    proof {
        assert(parsed.take(parsed.len() as int) =~= parsed);
        assert(sorted@ == sort_hands(parsed));
        assert(hands_match(parsed, spec_lines(input@)));
        assert(spec_total(sort_hands(parsed)) <= u32::MAX);
    }
    // Weighted total over the sorted hands.
    let m = sorted.len();
    let mut total: u32 = 0;
    let mut k: usize = 0;
    proof {
        assert(sorted@.take(0) =~= Seq::<Hand>::empty());
    }
    while k < m
        invariant
            0 <= k <= m,
            m == sorted@.len(),
            spec_total(sorted@) <= u32::MAX,
            total as int == spec_total(sorted@.take(k as int)),
        decreases m - k,
    {
        proof {
            lemma_spec_total_prefix(sorted@, k + 1);
            assert(sorted@.take(k + 1).drop_last() =~= sorted@.take(k as int));
            assert(sorted@.take(k + 1).last() == sorted@[k as int]);
            lemma_spec_total_nonneg(sorted@.take(k as int));
        }
        proof {
            assert(spec_total(sorted@.take(k + 1)) == spec_total(sorted@.take(k as int)) + (k + 1)
                * sorted@[k as int].bet);
            assert((k + 1) * sorted@[k as int].bet <= u32::MAX);
            assert((k + 1) * sorted@[k as int].bet >= 0) by (nonlinear_arith)
                requires
                    k + 1 >= 0,
                    sorted@[k as int].bet >= 0,
            ;
        }
        let weight = (k + 1) as u64;
        let add: u64 = weight * (sorted[k].bet as u64);
        total = total + (add as u32);
        k = k + 1;
    }
    proof {
        assert(sorted@.take(m as int) =~= sorted@);
        assert forall|hs: Seq<Hand>|
            hands_match(hs, spec_lines(input@)) implies total as int == #[trigger] spec_total(
            sort_hands(hs),
        ) by {
            lemma_hands_match_unique(hs, parsed, spec_lines(input@));
        }
    }
    total
}

} // verus!
