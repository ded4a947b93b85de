//! The text form of orders and reports.
//!
//! An order is a line of five fields with white space between them: the kind
//! (`Lim`, `FoK` or `IoC`), the side (`B` or `S`), the price behind `$`, the size
//! behind `#` and the user behind `u`, each number in decimal digits. A report is
//! `Q #size`, `F #size $price uuser` or `C #size`.

use crate::log::LogItem;
use crate::order::{
    Direction, IncomingOrder, IncomingOrderParseError, Order, OrderKind, OrderSide,
};
use crate::queues::Queue;
use crate::{BookView, OrderBook};
use std::str::FromStr;
use vstd::prelude::*;
use vstd::string::StringExecFns;

verus! {

/// Whether `c` is white space, as Unicode defines it.
pub open spec fn is_space(c: char) -> bool {
    let code = c as u32;
    ||| 0x09 <= code <= 0x0d
    ||| code == 0x20
    ||| code == 0x85
    ||| code == 0xa0
    ||| code == 0x1680
    ||| 0x2000 <= code <= 0x200a
    ||| code == 0x2028
    ||| code == 0x2029
    ||| code == 0x202f
    ||| code == 0x205f
    ||| code == 0x3000
}

/// Whether `c` is a decimal digit.
pub open spec fn is_digit(c: char) -> bool {
    0x30 <= c as u32 <= 0x39
}

/// The digit that `c` stands for.
pub open spec fn digit_value(c: char) -> nat {
    (c as u32 - 0x30) as nat
}

/// The character for the digit `d`.
pub open spec fn digit_char(d: nat) -> char {
    (0x30 + d) as char
}

/// Whether `word` is made of decimal digits.
pub open spec fn all_digits(word: Seq<char>) -> bool {
    forall|i: int| 0 <= i < word.len() ==> is_digit(#[trigger] word[i])
}

/// The number that `digits` spell, the most significant digit first.
pub open spec fn decimal_value(digits: Seq<char>) -> nat
    decreases digits.len(),
{
    if digits.len() == 0 {
        0
    } else {
        10 * decimal_value(digits.drop_last()) + digit_value(digits.last())
    }
}

/// The number that `word` spells, where it is one or more decimal digits and
/// the number fits in 64 bits.
pub open spec fn number(word: Seq<char>) -> Option<u64> {
    if word.len() > 0 && all_digits(word) && decimal_value(word) <= u64::MAX {
        Some(decimal_value(word) as u64)
    } else {
        None
    }
}

/// The number behind `prefix` in `word`.
pub open spec fn prefixed(word: Seq<char>, prefix: char) -> Option<u64> {
    if word.len() > 1 && word[0] == prefix {
        number(word.drop_first())
    } else {
        None
    }
}

/// `word` as a field, unless it is empty.
pub open spec fn closed(word: Seq<char>) -> Seq<Seq<char>> {
    if word.len() == 0 {
        Seq::empty()
    } else {
        seq![word]
    }
}

/// The fields of `text` where `word` is what was read of a field just before
/// it.
pub open spec fn split(text: Seq<char>, word: Seq<char>) -> Seq<Seq<char>>
    decreases text.len(),
{
    if text.len() == 0 {
        closed(word)
    } else if is_space(text[0]) {
        closed(word) + split(text.drop_first(), Seq::empty())
    } else {
        split(text.drop_first(), word.push(text[0]))
    }
}

/// The fields of `text`: its longest runs of characters that are not white
/// space.
pub open spec fn fields(text: Seq<char>) -> Seq<Seq<char>> {
    split(text, Seq::empty())
}

/// The kind that `word` names.
pub open spec fn kind_of(word: Seq<char>) -> Option<OrderKind> {
    if word == seq!['L', 'i', 'm'] {
        Some(OrderKind::Limit)
    } else if word == seq!['F', 'o', 'K'] {
        Some(OrderKind::FillOrKill)
    } else if word == seq!['I', 'o', 'C'] {
        Some(OrderKind::ImmediateOrCancel)
    } else {
        None
    }
}

/// The side that `word` names.
pub open spec fn side_of(word: Seq<char>) -> Option<OrderSide> {
    if word == seq!['S'] {
        Some(OrderSide::Sell)
    } else if word == seq!['B'] {
        Some(OrderSide::Buy)
    } else {
        None
    }
}

/// The order that `line` describes, where it describes one.
pub open spec fn parsed(line: Seq<char>) -> Option<IncomingOrder> {
    let words = fields(line);
    if words.len() == 5 && kind_of(words[0]) is Some && side_of(words[1]) is Some && prefixed(
        words[2],
        '$',
    ) is Some && prefixed(words[3], '#') is Some && prefixed(words[4], 'u') is Some {
        Some(
            IncomingOrder {
                price_limit: prefixed(words[2], '$')->0,
                size: prefixed(words[3], '#')->0,
                user_id: prefixed(words[4], 'u')->0,
                kind: kind_of(words[0])->0,
                side: side_of(words[1])->0,
            },
        )
    } else {
        None
    }
}

/// The decimal digits of `n`, without leading zeros.
pub open spec fn decimal(n: nat) -> Seq<char>
    decreases n,
{
    if n < 10 {
        seq![digit_char(n)]
    } else {
        decimal(n / 10).push(digit_char(n % 10))
    }
}

/// The word for `kind`.
pub open spec fn kind_text(kind: OrderKind) -> Seq<char> {
    match kind {
        OrderKind::Limit => seq!['L', 'i', 'm'],
        OrderKind::FillOrKill => seq!['F', 'o', 'K'],
        OrderKind::ImmediateOrCancel => seq!['I', 'o', 'C'],
    }
}

/// The letter for `side`.
pub open spec fn side_text(side: OrderSide) -> Seq<char> {
    match side {
        OrderSide::Buy => seq!['B'],
        OrderSide::Sell => seq!['S'],
    }
}

/// The line that describes `order`.
pub open spec fn order_text(order: IncomingOrder) -> Seq<char> {
    kind_text(order.kind) + seq![' '] + side_text(order.side) + seq![' ', '$'] + decimal(
        order.price_limit as nat,
    ) + seq![' ', '#'] + decimal(order.size as nat) + seq![' ', 'u'] + decimal(
        order.user_id as nat,
    )
}

/// The line that describes `item`.
pub open spec fn item_text(item: LogItem) -> Seq<char> {
    match item {
        LogItem::Enqueued { size } => seq!['Q', ' ', '#'] + decimal(size as nat),
        LogItem::Fulfilled { size, price, user_id } => seq!['F', ' ', '#'] + decimal(size as nat)
            + seq![' ', '$'] + decimal(price as nat) + seq![' ', 'u'] + decimal(user_id as nat),
        LogItem::Cancelled { size } => seq!['C', ' ', '#'] + decimal(size as nat),
    }
}

/// The lines that describe the orders of `queue`, the first order first.
pub open spec fn queue_text<D: Direction>(queue: Seq<Order<D>>) -> Seq<char>
    decreases queue.len(),
{
    if queue.len() == 0 {
        Seq::empty()
    } else {
        queue_text(queue.drop_last()) + order_text(queue.last().to_incoming()) + seq!['\n']
    }
}

/// The text that shows `book`: between a first and a last line the asks, the
/// best of them last, a line of dashes, and the bids, the best of them first.
pub open spec fn book_text(book: BookView) -> Seq<char> {
    "== ORDER BOOK START\n"@ + queue_text(book.ask.reverse()) + "-----\n"@ + queue_text(book.bid)
        + "== ORDER BOOK END\n"@
}

/// The characters for `digits`, which are held the least significant first.
pub open spec fn spelled(digits: Seq<u64>) -> Seq<char> {
    digits.reverse().map_values(|d: u64| digit_char(d as nat))
}

/// A number spelled by the first digits of a word is no greater than the
/// number spelled by all of them.
proof fn lemma_decimal_value_grows(digits: Seq<char>, count: int)
    requires
        0 <= count <= digits.len(),
    ensures
        decimal_value(digits.take(count)) <= decimal_value(digits),
    decreases digits.len() - count,
{
    if count == digits.len() {
        assert(digits.take(count) =~= digits);
    } else {
        lemma_decimal_value_grows(digits, count + 1);
        assert(digits.take(count + 1).drop_last() =~= digits.take(count));
    }
}

fn is_space_char(c: char) -> (space: bool)
    ensures
        space == is_space(c),
{
    let code = c as u32;
    (0x09 <= code && code <= 0x0d) || code == 0x20 || code == 0x85 || code == 0xa0 || code
        == 0x1680 || (0x2000 <= code && code <= 0x200a) || code == 0x2028 || code == 0x2029
        || code == 0x202f || code == 0x205f || code == 0x3000
}

/// The characters of `text`.
pub fn characters(text: &str) -> (chars: Vec<char>)
    ensures
        chars@ == text@,
{
    let mut chars: Vec<char> = Vec::new();
    for c in it: text.chars()
        invariant
            chars@ == it.seq().take(it.index() as int),
    {
        chars.push(c);
    }
    chars
}

/// The number that the characters of `word` from `start` on spell.
pub fn parse_number(word: &Vec<char>, start: usize) -> (value: Option<u64>)
    requires
        start <= word@.len(),
    ensures
        value == number(word@.skip(start as int)),
{
    let count = word.len();
    if start == count {
        return None;
    }
    let ghost digits = word@.skip(start as int);
    let mut value: u64 = 0;
    let mut i: usize = start;
    assert(digits.take(0) =~= Seq::<char>::empty());
    while i < count
        invariant
            start <= i <= count,
            count == word@.len(),
            digits == word@.skip(start as int),
            all_digits(digits.take(i - start)),
            value == decimal_value(digits.take(i - start)),
        decreases count - i,
    {
        let code = word[i] as u32;
        if code < 0x30 || code > 0x39 {
            assert(!is_digit(digits[i - start]));
            return None;
        }
        let digit = (code - 0x30) as u64;
        assert(digits.take(i + 1 - start).drop_last() =~= digits.take(i - start));
        if value > (u64::MAX - digit) / 10 {
            proof {
                lemma_decimal_value_grows(digits, i + 1 - start);
            }
            return None;
        }
        value = value * 10 + digit;
        i += 1;
    }
    assert(digits.take(count - start) =~= digits);
    Some(value)
}

/// The number behind `prefix` in `word`.
pub fn parse_prefixed(word: &Vec<char>, prefix: char) -> (value: Option<u64>)
    ensures
        value == prefixed(word@, prefix),
{
    if word.len() > 1 && word[0] == prefix {
        assert(word@.skip(1) =~= word@.drop_first());
        parse_number(word, 1)
    } else {
        None
    }
}

/// The fields of `text`.
pub fn split_fields(text: &Vec<char>) -> (words: Vec<Vec<char>>)
    ensures
        words@.len() == fields(text@).len(),
        forall|k: int| 0 <= k < words@.len() ==> (#[trigger] words@[k])@ == fields(text@)[k],
{
    let mut words: Vec<Vec<char>> = Vec::new();
    let mut word: Vec<char> = Vec::new();
    let ghost mut done: Seq<Seq<char>> = Seq::empty();
    let mut i: usize = 0;
    assert(text@.skip(0) =~= text@);
    while i < text.len()
        invariant
            i <= text@.len(),
            fields(text@) == done + split(text@.skip(i as int), word@),
            words@.len() == done.len(),
            forall|k: int| 0 <= k < words@.len() ==> (#[trigger] words@[k])@ == done[k],
        decreases text@.len() - i,
    {
        let c = text[i];
        let ghost rest = text@.skip(i as int);
        assert(rest[0] == c);
        assert(rest.drop_first() =~= text@.skip(i + 1));
        let ghost behind = split(text@.skip(i + 1), Seq::empty());
        if is_space_char(c) {
            assert(split(rest, word@) == closed(word@) + behind);
            if word.len() > 0 {
                proof {
                    let held = done;
                    done = held.push(word@);
                    assert(held + (seq![word@] + behind) =~= done + behind);
                }
                words.push(word);
                word = Vec::new();
            } else {
                assert(done + (Seq::<Seq<char>>::empty() + behind) =~= done + behind);
            }
            assert(word@ =~= Seq::<char>::empty());
        } else {
            assert(split(rest, word@) == split(text@.skip(i + 1), word@.push(c)));
            word.push(c);
        }
        i += 1;
    }
    if word.len() > 0 {
        proof {
            let held = done;
            done = held.push(word@);
            assert(held + closed(word@) =~= done);
        }
        words.push(word);
    } else {
        assert(done + closed(word@) =~= done);
    }
    words
}

fn is_word_of_three(word: &Vec<char>, first: char, second: char, third: char) -> (same: bool)
    ensures
        same == (word@ == seq![first, second, third]),
{
    let same = word.len() == 3 && word[0] == first && word[1] == second && word[2] == third;
    assert(same == (word@ =~= seq![first, second, third])) by {
        if !same && word@ == seq![first, second, third] {
            assert(seq![first, second, third][0] == first);
            assert(seq![first, second, third][1] == second);
            assert(seq![first, second, third][2] == third);
        }
    }
    same
}

fn is_letter(word: &Vec<char>, letter: char) -> (same: bool)
    ensures
        same == (word@ == seq![letter]),
{
    let same = word.len() == 1 && word[0] == letter;
    assert(same == (word@ =~= seq![letter])) by {
        if !same && word@ == seq![letter] {
            assert(seq![letter][0] == letter);
        }
    }
    same
}

/// The kind that `word` names.
pub fn parse_kind(word: &Vec<char>) -> (kind: Option<OrderKind>)
    ensures
        kind == kind_of(word@),
{
    if is_word_of_three(word, 'L', 'i', 'm') {
        Some(OrderKind::Limit)
    } else if is_word_of_three(word, 'F', 'o', 'K') {
        Some(OrderKind::FillOrKill)
    } else if is_word_of_three(word, 'I', 'o', 'C') {
        Some(OrderKind::ImmediateOrCancel)
    } else {
        None
    }
}

/// The side that `word` names.
pub fn parse_side(word: &Vec<char>) -> (side: Option<OrderSide>)
    ensures
        side == side_of(word@),
{
    if is_letter(word, 'S') {
        Some(OrderSide::Sell)
    } else if is_letter(word, 'B') {
        Some(OrderSide::Buy)
    } else {
        None
    }
}

fn digit_text(digit: u64) -> (text: &'static str)
    requires
        digit < 10,
    ensures
        text@ == seq![digit_char(digit as nat)],
{
    proof {
        reveal_strlit("0");
        reveal_strlit("1");
        reveal_strlit("2");
        reveal_strlit("3");
        reveal_strlit("4");
        reveal_strlit("5");
        reveal_strlit("6");
        reveal_strlit("7");
        reveal_strlit("8");
        reveal_strlit("9");
    }
    let text = if digit == 0 {
        "0"
    } else if digit == 1 {
        "1"
    } else if digit == 2 {
        "2"
    } else if digit == 3 {
        "3"
    } else if digit == 4 {
        "4"
    } else if digit == 5 {
        "5"
    } else if digit == 6 {
        "6"
    } else if digit == 7 {
        "7"
    } else if digit == 8 {
        "8"
    } else {
        "9"
    };
    assert(text@ =~= seq![digit_char(digit as nat)]);
    text
}

/// Appends the decimal digits of `n` to `text`.
pub fn push_decimal(text: &mut String, n: u64)
    ensures
        final(text)@ == old(text)@ + decimal(n as nat),
{
    let mut digits: Vec<u64> = Vec::new();
    digits.push(n % 10);
    let mut rest: u64 = n / 10;
    assert(spelled(digits@) =~= seq![digit_char((n % 10) as nat)]);
    while rest > 0
        invariant
            digits@.len() > 0,
            forall|k: int| 0 <= k < digits@.len() ==> #[trigger] digits@[k] < 10,
            decimal(n as nat) == (if rest == 0 {
                Seq::<char>::empty()
            } else {
                decimal(rest as nat)
            }) + spelled(digits@),
        decreases rest,
    {
        let ghost held = digits@;
        digits.push(rest % 10);
        assert(spelled(digits@) =~= seq![digit_char((rest % 10) as nat)] + spelled(held));
        assert(decimal(rest as nat) =~= (if rest / 10 == 0 {
            Seq::<char>::empty()
        } else {
            decimal((rest / 10) as nat)
        }) + seq![digit_char((rest % 10) as nat)]);
        rest = rest / 10;
    }
    let ghost before = text@;
    let mut left: usize = digits.len();
    assert(spelled(digits@).take(0) =~= Seq::<char>::empty());
    while left > 0
        invariant
            left <= digits@.len(),
            forall|k: int| 0 <= k < digits@.len() ==> #[trigger] digits@[k] < 10,
            text@ == before + spelled(digits@).take(digits@.len() - left),
        decreases left,
    {
        left -= 1;
        text.append(digit_text(digits[left]));
        assert(spelled(digits@).take(digits@.len() - left) =~= spelled(digits@).take(
            digits@.len() - left - 1,
        ) + seq![digit_char(digits@[left as int] as nat)]);
    }
    assert(spelled(digits@).take(digits@.len() as int) =~= spelled(digits@));
}

impl LogItem {
    /// The line that describes the report.
    pub fn to_string(&self) -> (text: String)
        ensures
            text@ == item_text(*self),
    {
        let mut text = String::new();
        proof {
            reveal_strlit("Q #");
            reveal_strlit("F #");
            reveal_strlit("C #");
            reveal_strlit(" $");
            reveal_strlit(" u");
        }
        match self {
            LogItem::Enqueued { size } => {
                text.append("Q #");
                assert(text@ =~= seq!['Q', ' ', '#']);
                push_decimal(&mut text, *size);
            },
            LogItem::Fulfilled { size, price, user_id } => {
                text.append("F #");
                assert(text@ =~= seq!['F', ' ', '#']);
                push_decimal(&mut text, *size);
                let ghost sized = text@;
                text.append(" $");
                assert(text@ =~= sized + seq![' ', '$']);
                push_decimal(&mut text, *price);
                let ghost priced = text@;
                text.append(" u");
                assert(text@ =~= priced + seq![' ', 'u']);
                push_decimal(&mut text, *user_id);
            },
            LogItem::Cancelled { size } => {
                text.append("C #");
                assert(text@ =~= seq!['C', ' ', '#']);
                push_decimal(&mut text, *size);
            },
        }
        text
    }
}

impl IncomingOrder {
    /// The line that describes the order.
    pub fn to_string(&self) -> (text: String)
        ensures
            text@ == order_text(*self),
    {
        let mut text = String::new();
        proof {
            reveal_strlit("Lim");
            reveal_strlit("FoK");
            reveal_strlit("IoC");
            reveal_strlit(" B");
            reveal_strlit(" S");
            reveal_strlit(" $");
            reveal_strlit(" #");
            reveal_strlit(" u");
        }
        match self.kind {
            OrderKind::Limit => text.append("Lim"),
            OrderKind::FillOrKill => text.append("FoK"),
            OrderKind::ImmediateOrCancel => text.append("IoC"),
        }
        assert(text@ =~= kind_text(self.kind));
        match self.side {
            OrderSide::Buy => text.append(" B"),
            OrderSide::Sell => text.append(" S"),
        }
        assert(text@ =~= kind_text(self.kind) + seq![' '] + side_text(self.side));
        let ghost sided = text@;
        text.append(" $");
        assert(text@ =~= sided + seq![' ', '$']);
        push_decimal(&mut text, self.price_limit);
        let ghost priced = text@;
        text.append(" #");
        assert(text@ =~= priced + seq![' ', '#']);
        push_decimal(&mut text, self.size);
        let ghost sized = text@;
        text.append(" u");
        assert(text@ =~= sized + seq![' ', 'u']);
        push_decimal(&mut text, self.user_id);
        text
    }

    /// Reads an order from a line of text. A line that is not five fields, or
    /// that has a field that is not of its form, is rejected.
    pub fn from_text(line: &str) -> (order: Result<IncomingOrder, IncomingOrderParseError>)
        ensures
            match parsed(line@) {
                Some(described) => order == Ok::<IncomingOrder, IncomingOrderParseError>(described),
                None => order is Err,
            },
    {
        let chars = characters(line);
        let parts = split_fields(&chars);
        if parts.len() != 5 {
            return Err(IncomingOrderParseError);
        }
        let kind = match parse_kind(&parts[0]) {
            Some(kind) => kind,
            None => return Err(IncomingOrderParseError),
        };
        let side = match parse_side(&parts[1]) {
            Some(side) => side,
            None => return Err(IncomingOrderParseError),
        };
        let price_limit = match parse_prefixed(&parts[2], '$') {
            Some(value) => value,
            None => return Err(IncomingOrderParseError),
        };
        let size = match parse_prefixed(&parts[3], '#') {
            Some(value) => value,
            None => return Err(IncomingOrderParseError),
        };
        let user_id = match parse_prefixed(&parts[4], 'u') {
            Some(value) => value,
            None => return Err(IncomingOrderParseError),
        };
        Ok(IncomingOrder { price_limit, size, user_id, kind, side })
    }
}

/// Appends the line that describes `order` to `text`.
fn push_order_line<D: Direction>(text: &mut String, order: &Order<D>)
    ensures
        final(text)@ == old(text)@ + order_text(order.to_incoming()) + seq!['\n'],
{
    let line = order.to_incoming().to_string();
    text.append(line.as_str());
    proof {
        reveal_strlit("\n");
    }
    let ghost lined = text@;
    text.append("\n");
    assert(text@ =~= lined + seq!['\n']);
}

impl OrderBook {
    /// The book as text, for a reader: the asks above the bids, so that the best
    /// prices of the two sides meet in the middle.
    pub fn to_string(&self) -> (text: String)
        ensures
            text@ == book_text(self@),
    {
        let mut text = String::new();
        text.append("== ORDER BOOK START\n");
        let ghost head = text@;
        assert(head =~= "== ORDER BOOK START\n"@);
        let asks = Queue::len(self.ask());
        let ghost shown = self@.ask.reverse();
        let mut left: usize = asks;
        assert(shown.take(0) =~= Seq::<Order<crate::order::Sell>>::empty());
        while left > 0
            invariant
                asks == self@.ask.len(),
                shown == self@.ask.reverse(),
                left <= asks,
                text@ == head + queue_text(shown.take(asks - left)),
            decreases left,
        {
            left -= 1;
            push_order_line(&mut text, self.ask().get(left));
            assert(shown.take(asks - left).drop_last() =~= shown.take(asks - left - 1));
            assert(shown.take(asks - left).last() == self@.ask[left as int]);
        }
        assert(shown.take(asks as int) =~= shown);
        text.append("-----\n");
        let ghost middle = text@;
        let bids = Queue::len(self.bid());
        let mut i: usize = 0;
        assert(self@.bid.take(0) =~= Seq::<Order<crate::order::Buy>>::empty());
        while i < bids
            invariant
                bids == self@.bid.len(),
                i <= bids,
                text@ == middle + queue_text(self@.bid.take(i as int)),
            decreases bids - i,
        {
            push_order_line(&mut text, self.bid().get(i));
            assert(self@.bid.take(i + 1).drop_last() =~= self@.bid.take(i as int));
            assert(self@.bid.take(i + 1).last() == self@.bid[i as int]);
            i += 1;
        }
        assert(self@.bid.take(bids as int) =~= self@.bid);
        text.append("== ORDER BOOK END\n");
        text
    }
}

impl FromStr for IncomingOrder {
    type Err = IncomingOrderParseError;

    /// Reads an order from a line of text, as `from_text` does.
    fn from_str(s: &str) -> (order: Result<Self, Self::Err>)
        ensures
            match parsed(s@) {
                Some(described) => order == Ok::<IncomingOrder, IncomingOrderParseError>(described),
                None => order is Err,
            },
    {
        IncomingOrder::from_text(s)
    }
}

} // verus!
