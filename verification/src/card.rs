//! Playing cards: suits, ranks, colours, the one-byte code and the text form.

use vstd::prelude::*;
use vstd::string::*;

verus! {

/// The four suits, in foundation order.
#[derive(Clone, Copy, PartialEq, Eq, Hash, Debug, Structural)]
pub enum Suit {
    Diamond,
    Club,
    Spade,
    Heart,
}

impl Suit {
    /// Position of the suit among the foundations, 0 to 3.
    pub open spec fn ordinal(self) -> int {
        match self {
            Suit::Diamond => 0,
            Suit::Club => 1,
            Suit::Spade => 2,
            Suit::Heart => 3,
        }
    }

    /// The suit at a foundation position; positions past 3 give `Heart`.
    pub open spec fn at(i: int) -> Suit {
        if i == 0 {
            Suit::Diamond
        } else if i == 1 {
            Suit::Club
        } else if i == 2 {
            Suit::Spade
        } else {
            Suit::Heart
        }
    }

    /// Position of the suit among the foundations.
    pub fn index(self) -> (i: usize)
        ensures
            i == self.ordinal(),
            i < 4,
    {
        match self {
            Suit::Diamond => 0,
            Suit::Club => 1,
            Suit::Spade => 2,
            Suit::Heart => 3,
        }
    }

    /// The suit at foundation position `i`.
    pub fn from_index(i: usize) -> (s: Suit)
        ensures
            s == Suit::at(i as int),
            i < 4 ==> s.ordinal() == i,
    {
        if i == 0 {
            Suit::Diamond
        } else if i == 1 {
            Suit::Club
        } else if i == 2 {
            Suit::Spade
        } else {
            Suit::Heart
        }
    }
}

/// A card: a rank from 1 (ace) to 13 (king) and a suit.
#[derive(Clone, Copy, PartialEq, Eq, Hash, Debug, Structural)]
pub struct Card {
    pub rank: u8,
    pub suit: Suit,
}

impl Card {
    /// A card of the deck has a rank from 1 to 13.
    pub open spec fn valid(self) -> bool {
        1 <= self.rank <= 13
    }

    /// Clubs and spades are black, diamonds and hearts are red.
    pub open spec fn black(self) -> bool {
        self.suit == Suit::Club || self.suit == Suit::Spade
    }

    /// The one-byte code of a card: the suit in the high nibble, the rank in
    /// the low one. No card of the deck has code 0.
    pub open spec fn code(self) -> u8 {
        ((self.suit.ordinal() as u8) << 4u8) | self.rank
    }

    /// The card that a code stands for: the low nibble is the rank, the high
    /// nibble picks the suit (anything past 3 reads as `Heart`).
    pub open spec fn of_code(value: u8) -> Card {
        Card { rank: value & 0xF, suit: Suit::at((value >> 4u8) as int) }
    }

    /// Position of a card in the ordered deck: suit by suit, ace to king.
    pub open spec fn deck_position(self) -> int {
        13 * self.suit.ordinal() + self.rank - 1
    }

    /// The card at a position of the ordered deck.
    pub open spec fn at_deck_position(k: int) -> Card {
        Card { rank: (k % 13 + 1) as u8, suit: Suit::at(k / 13) }
    }

    /// Whether the card is black: a club or a spade.
    pub fn is_black(&self) -> (b: bool)
        ensures
            b == self.black(),
    {
        self.suit == Suit::Club || self.suit == Suit::Spade
    }

    /// The one-byte code of the card: `(suit << 4) | rank`.
    pub fn encode(&self) -> (b: u8)
        ensures
            b == self.code(),
    {
        let s: u8 = match self.suit {
            Suit::Diamond => 0,
            Suit::Club => 1,
            Suit::Spade => 2,
            Suit::Heart => 3,
        };
        (s << 4u8) | self.rank
    }

    /// The card that a code stands for.
    pub fn decode(value: u8) -> (c: Card)
        ensures
            c == Card::of_code(value),
    {
        let rank: u8 = value & 0xF;
        let high: u8 = value >> 4u8;
        let suit = match high {
            0 => Suit::Diamond,
            1 => Suit::Club,
            2 => Suit::Spade,
            _ => Suit::Heart,
        };
        Card { rank, suit }
    }

    /// For ranks that fit the low nibble the code is `16 * suit + rank`.
    pub proof fn lemma_code_value(self)
        requires
            self.rank < 16,
        ensures
            self.code() == 16 * self.suit.ordinal() + self.rank,
            self.valid() ==> self.code() != 0,
    {
        let s: u8 = self.suit.ordinal() as u8;
        let r: u8 = self.rank;
        assert(s < 4 && r < 16 ==> ((s << 4u8) | r) == 16 * s + r) by (bit_vector);
    }

    /// Decoding the code of a card gives the card back, for every rank that
    /// fits the low nibble and so for all 52 cards of the deck.
    pub proof fn lemma_decode_encode(self)
        requires
            self.rank < 16,
        ensures
            Card::of_code(self.code()) == self,
    {
        let s: u8 = self.suit.ordinal() as u8;
        let r: u8 = self.rank;
        assert(s < 4 && r < 16 ==> (((s << 4u8) | r) & 0xF) == r) by (bit_vector);
        assert(s < 4 && r < 16 ==> (((s << 4u8) | r) >> 4u8) == s) by (bit_vector);
    }

    /// Two cards whose ranks fit the low nibble have the same code only if
    /// they are the same card.
    pub proof fn lemma_code_injective(self, other: Card)
        requires
            self.rank < 16,
            other.rank < 16,
            self.code() == other.code(),
        ensures
            self == other,
    {
        self.lemma_decode_encode();
        other.lemma_decode_encode();
    }
}

/// The ASCII codes of the characters of a card's text.
const ASCII_PLUS: u8 = 43;

const ASCII_0: u8 = 48;

const ASCII_9: u8 = 57;

const ASCII_C: u8 = 67;

const ASCII_D: u8 = 68;

const ASCII_H: u8 = 72;

const ASCII_S: u8 = 83;

/// An ASCII decimal digit.
pub open spec fn is_digit(c: char) -> bool {
    '0' <= c && c <= '9'
}

/// The number that a run of decimal digits writes, most significant first.
pub open spec fn decimal(s: Seq<char>) -> int
    decreases s.len(),
{
    if s.len() == 0 {
        0
    } else {
        10 * decimal(s.drop_last()) + (s.last() as int - '0' as int)
    }
}

impl Card {
    /// The suit that a letter names.
    pub open spec fn suit_letter(c: char) -> Option<Suit> {
        if c == 'D' {
            Some(Suit::Diamond)
        } else if c == 'C' {
            Some(Suit::Club)
        } else if c == 'S' {
            Some(Suit::Spade)
        } else if c == 'H' {
            Some(Suit::Heart)
        } else {
            None
        }
    }

    /// The digits of a card's text: all but the closing suit letter, without
    /// a leading plus sign.
    pub open spec fn rank_digits(s: Seq<char>) -> Seq<char> {
        if s.len() >= 2 && s[0] == '+' {
            s.subrange(1, s.len() - 1)
        } else {
            s.subrange(0, s.len() - 1)
        }
    }

    /// The card that a text names, if it names one: a decimal rank from 1 to
    /// 13 (a plus sign and leading zeros are tolerated) followed by one of the
    /// suit letters `D`, `C`, `S`, `H`.
    pub open spec fn parsed(s: Seq<char>) -> Option<Card> {
        if s.len() < 2 {
            None
        } else {
            let digits = Card::rank_digits(s);
            match Card::suit_letter(s.last()) {
                None => None,
                Some(suit) => if digits.len() >= 1 && (forall|i: int|
                    0 <= i < digits.len() ==> is_digit(#[trigger] digits[i])) && 1 <= decimal(
                    digits,
                ) <= 13 {
                    Some(Card { rank: decimal(digits) as u8, suit })
                } else {
                    None
                },
            }
        }
    }

    /// Reads a card from its text form, such as `"1S"` for the ace of spades
    /// or `"13H"` for the king of hearts.
    pub fn parse(text: &str) -> (r: Option<Card>)
        ensures
            r == Card::parsed(text@),
    {
        if !text.is_ascii() {
            proof {
                lemma_non_ascii_is_no_card(text@);
            }
            return None;
        }
        let n = text.unicode_len();
        if n < 2 {
            return None;
        }
        let letter = text.get_ascii(n - 1);
        let suit = if letter == ASCII_D {
            Suit::Diamond
        } else if letter == ASCII_C {
            Suit::Club
        } else if letter == ASCII_S {
            Suit::Spade
        } else if letter == ASCII_H {
            Suit::Heart
        } else {
            return None;
        };
        let first = text.get_ascii(0);
        let start: usize = if first == ASCII_PLUS {
            1
        } else {
            0
        };
        if start >= n - 1 {
            return None;
        }
        let ghost digits = Card::rank_digits(text@);
        assert(digits =~= text@.subrange(start as int, n - 1));
        let mut value: u8 = 0;
        let mut i: usize = start;
        while i < n - 1
            invariant
                start <= i <= n - 1,
                n == text@.len(),
                text.is_ascii(),
                digits == text@.subrange(start as int, n - 1),
                digits == Card::rank_digits(text@),
                forall|k: int| 0 <= k < i - start ==> is_digit(#[trigger] digits[k]),
                value <= 14,
                value < 14 ==> value == decimal(digits.subrange(0, i - start)),
                value == 14 ==> decimal(digits.subrange(0, i - start)) >= 14,
            decreases n - 1 - i,
        {
            let b = text.get_ascii(i);
            assert(digits[i - start] == text@[i as int]);
            if b < ASCII_0 || b > ASCII_9 {
                assert(!is_digit(digits[i - start]));
                return None;
            }
            let d: u8 = b - ASCII_0;
            proof {
                let next = digits.subrange(0, i + 1 - start);
                assert(next.drop_last() =~= digits.subrange(0, i - start));
                assert(next.last() == digits[i - start]);
                assert(decimal(next) == 10 * decimal(digits.subrange(0, i - start)) + d);
            }
            value = if value >= 14 {
                14
            } else {
                let v: u8 = value * 10 + d;
                if v > 14 {
                    14
                } else {
                    v
                }
            };
            i = i + 1;
        }
        assert(digits.subrange(0, i - start) =~= digits);
        if value < 1 || value > 13 {
            return None;
        }
        Some(Card { rank: value, suit })
    }
}

/// A text with a character outside ASCII names no card.
proof fn lemma_non_ascii_is_no_card(s: Seq<char>)
    requires
        !vstd::utf8::is_ascii_chars(s),
    ensures
        Card::parsed(s) is None,
{
    let k = choose|k: int| 0 <= k < s.len() && !('\0' <= #[trigger] s[k] && s[k] <= '\u{7f}');
    if s.len() >= 2 {
        let digits = Card::rank_digits(s);
        if k == s.len() - 1 {
            assert(Card::suit_letter(s.last()) is None);
        } else if s[0] == '+' {
            assert(k >= 1);
            assert(digits[k - 1] == s[k]);
            assert(!is_digit(digits[k - 1]));
        } else {
            assert(digits[k] == s[k]);
            assert(!is_digit(digits[k]));
        }
    }
}

} // verus!
