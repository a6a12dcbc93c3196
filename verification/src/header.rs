//! Headers: blocks of 36 cards of 80 bytes, parsed into keywords with their
//! values and comments, and classified by the kind of unit they describe.

use vstd::prelude::*;
use vstd::string::*;
use crate::block::{CARDS_PER_BLOCK, CARD_SIZE};
use crate::decimal::{decimal_text, indexed_keyword, parse_text, text_integer, within};
use crate::error::FitsError;
use crate::text::{
    all_ascii, ascii_string, ascii_text, is_ascii_bytes, is_space, is_space_byte, push_char, trim,
    trim_bounds,
};

verus! {

/// The structural kind of a header/data unit.
#[derive(Debug, Copy, Clone, PartialEq, Eq, Structural)]
pub enum HeaderType {
    Primary,
    Image,
    ASCIITable,
    BinaryTable,
}

impl HeaderType {
    /// The kind's name in words.
    pub open spec fn name(self) -> Seq<char> {
        match self {
            HeaderType::Primary => "Primary"@,
            HeaderType::Image => "Image"@,
            HeaderType::ASCIITable => "ASCII Table"@,
            HeaderType::BinaryTable => "Binary Table"@,
        }
    }

    /// The kind's name in words.
    pub fn to_string(&self) -> (s: String)
        ensures
            s@ == self.name(),
    {
        match self {
            HeaderType::Primary => String::from_str("Primary"),
            HeaderType::Image => String::from_str("Image"),
            HeaderType::ASCIITable => String::from_str("ASCII Table"),
            HeaderType::BinaryTable => String::from_str("Binary Table"),
        }
    }
}

/// What a card says.
pub struct CardText {
    pub keyword: Seq<char>,
    pub value: Seq<char>,
    pub comment: Seq<char>,
}

/// One parsed header card.
#[derive(Debug, PartialEq, Eq)]
pub struct Card {
    pub keyword: String,
    pub value: String,
    pub comment: String,
}

impl View for Card {
    type V = CardText;

    open spec fn view(&self) -> CardText {
        CardText { keyword: self.keyword@, value: self.value@, comment: self.comment@ }
    }
}

impl Clone for Card {
    fn clone(&self) -> (c: Self)
        ensures
            c == *self,
    {
        Card {
            keyword: self.keyword.clone(),
            value: self.value.clone(),
            comment: self.comment.clone(),
        }
    }
}

/// The bytes that a value keeps: no white space and no quote.
pub open spec fn kept() -> spec_fn(u8) -> bool {
    |b: u8| !is_space(b) && b != 39
}

/// The index of the first `/` in `s`, or the length of `s` if it has none.
pub open spec fn slash_index(s: Seq<u8>) -> int
    decreases s.len(),
{
    if s.len() == 0 || s[0] == 47 {
        0
    } else {
        1 + slash_index(s.drop_first())
    }
}

/// The keyword of a card: its first 8 bytes without the white space around
/// them.
pub open spec fn card_keyword(card: Seq<u8>) -> Seq<char> {
    ascii_text(trim(card.subrange(0, 8)))
}

/// Bytes 8 and 9 of a value card are `=` and a space.
pub open spec fn is_value_card(card: Seq<u8>) -> bool {
    card[8] == 61 && card[9] == 32
}

/// The value of a value card: what bytes 11 to 79 hold before the first
/// `/`, without white space and quotes.
pub open spec fn card_value(card: Seq<u8>) -> Seq<char> {
    let field = card.subrange(11, 80);
    ascii_text(field.take(slash_index(field)).filter(kept()))
}

/// The comment of a value card: what follows the first `/` in bytes 11 to
/// 79, as it stands; nothing where there is no `/`.
pub open spec fn card_comment(card: Seq<u8>) -> Seq<char> {
    let field = card.subrange(11, 80);
    let cut = slash_index(field);
    if cut < field.len() {
        ascii_text(field.skip(cut + 1))
    } else {
        Seq::empty()
    }
}

/// What the 80 bytes of a card say. A card without the value marker has
/// bytes 9 to 79, as they stand, as its value, and no comment.
pub open spec fn card_text(card: Seq<u8>) -> CardText {
    if is_value_card(card) {
        CardText {
            keyword: card_keyword(card),
            value: card_value(card),
            comment: card_comment(card),
        }
    } else {
        CardText {
            keyword: card_keyword(card),
            value: ascii_text(card.subrange(9, 80)),
            comment: Seq::empty(),
        }
    }
}

/// Card number `k` of the header blocks, 36 to a block.
pub open spec fn card_at(blocks: Seq<Seq<u8>>, k: int) -> Seq<u8> {
    blocks[k / 36].subrange((k % 36) * 80, (k % 36) * 80 + 80)
}

/// The cards of the header blocks, in order.
pub open spec fn all_cards(blocks: Seq<Seq<u8>>) -> Seq<CardText> {
    Seq::new(blocks.len() * 36, |k: int| card_text(card_at(blocks, k)))
}

/// Every byte of every block is ASCII.
pub open spec fn ascii_blocks(blocks: Seq<Seq<u8>>) -> bool {
    forall|i: int| 0 <= i < blocks.len() ==> is_ascii_bytes(#[trigger] blocks[i])
}

/// The value that the cards give a keyword: that of the last card that
/// carries it.
pub open spec fn keyword_value(cards: Seq<CardText>, name: Seq<char>) -> Option<Seq<char>>
    decreases cards.len(),
{
    if cards.len() == 0 {
        None
    } else if cards.last().keyword == name {
        Some(cards.last().value)
    } else {
        keyword_value(cards.drop_last(), name)
    }
}

/// No card after number `i` carries the keyword of card `i`.
pub open spec fn is_latest(cards: Seq<CardText>, i: int) -> bool {
    forall|j: int| i < j < cards.len() ==> (#[trigger] cards[j]).keyword != cards[i].keyword
}

/// The keywords of the first `n` cards with their values, each keyword once,
/// at the place of the last card that carries it.
pub open spec fn latest_entries(cards: Seq<CardText>, n: int) -> Seq<(Seq<char>, Seq<char>)>
    decreases n,
{
    if n <= 0 {
        Seq::empty()
    } else if is_latest(cards, n - 1) {
        latest_entries(cards, n - 1).push((cards[n - 1].keyword, cards[n - 1].value))
    } else {
        latest_entries(cards, n - 1)
    }
}

/// The kind that the value of `XTENSION` names.
pub open spec fn extension_kind(value: Seq<char>) -> Result<HeaderType, FitsError> {
    if value == "IMAGE"@ {
        Ok(HeaderType::Image)
    } else if value == "BINTABLE"@ {
        Ok(HeaderType::BinaryTable)
    } else if value == "TABLE"@ {
        Ok(HeaderType::ASCIITable)
    } else {
        Err(FitsError::UnknownExtension)
    }
}

/// The kind that the cards declare: `SIMPLE` makes a primary unit, else
/// `XTENSION` names the extension.
pub open spec fn classify(cards: Seq<CardText>) -> Result<HeaderType, FitsError> {
    if keyword_value(cards, "SIMPLE"@) is Some {
        Ok(HeaderType::Primary)
    } else {
        match keyword_value(cards, "XTENSION"@) {
            Some(v) => extension_kind(v),
            None => Err(FitsError::UnclassifiedHeader),
        }
    }
}

/// What a header holds.
pub struct HeaderView {
    /// The raw blocks, in the order in which they were appended.
    pub blocks: Seq<Seq<u8>>,
    /// Whether the cards were parsed and the kind was found.
    pub initialized: bool,
    /// The kind; it means something only once `initialized` holds.
    pub kind: HeaderType,
    /// The parsed cards, in order; empty until `initialized` holds.
    pub cards: Seq<CardText>,
}

/// The header that parsing the blocks gives, or why they cannot be parsed.
pub open spec fn parsed_header(blocks: Seq<Seq<u8>>) -> Result<HeaderView, FitsError> {
    if !ascii_blocks(blocks) {
        Err(FitsError::NonAsciiHeader)
    } else {
        match classify(all_cards(blocks)) {
            Ok(kind) => Ok(
                HeaderView { blocks, initialized: true, kind, cards: all_cards(blocks) },
            ),
            Err(e) => Err(e),
        }
    }
}

/// The first slash of `s` is at `i` if none comes before and one stands
/// there, or `s` ends there.
pub proof fn lemma_slash_index(s: Seq<u8>, i: int)
    requires
        0 <= i <= s.len(),
        forall|j: int| 0 <= j < i ==> s[j] != 47,
        i == s.len() || s[i] == 47,
    ensures
        slash_index(s) == i,
    decreases i,
{
    if i > 0 {
        let rest = s.drop_first();
        assert forall|j: int| 0 <= j < i - 1 implies rest[j] != 47 by {
            assert(rest[j] == s[j + 1]);
        }
        lemma_slash_index(rest, i - 1);
    }
}

/// Last write wins: a keyword has the value of the last card that carries
/// it.
pub proof fn lemma_keyword_value_latest(cards: Seq<CardText>, i: int)
    requires
        0 <= i < cards.len(),
        is_latest(cards, i),
    ensures
        keyword_value(cards, cards[i].keyword) == Some(cards[i].value),
    decreases cards.len(),
{
    if i < cards.len() - 1 {
        let front = cards.drop_last();
        assert(cards[cards.len() - 1].keyword != cards[i].keyword);
        assert forall|j: int| i < j < front.len() implies (#[trigger] front[j]).keyword
            != front[i].keyword by {
            assert(front[j] == cards[j]);
        }
        lemma_keyword_value_latest(front, i);
    }
}

/// A keyword that some card carries has a value.
pub proof fn lemma_keyword_value_found(cards: Seq<CardText>, name: Seq<char>, i: int)
    requires
        0 <= i < cards.len(),
        cards[i].keyword == name,
    ensures
        keyword_value(cards, name) is Some,
    decreases cards.len(),
{
    if cards.last().keyword != name {
        lemma_keyword_value_found(cards.drop_last(), name, i);
    }
}

/// A keyword that no card carries has no value.
pub proof fn lemma_keyword_value_absent(cards: Seq<CardText>, name: Seq<char>)
    requires
        forall|i: int| 0 <= i < cards.len() ==> (#[trigger] cards[i]).keyword != name,
    ensures
        keyword_value(cards, name) is None,
    decreases cards.len(),
{
    if cards.len() > 0 {
        assert(cards[cards.len() - 1].keyword != name);
        let front = cards.drop_last();
        assert forall|i: int| 0 <= i < front.len() implies (#[trigger] front[i]).keyword
            != name by {
            assert(front[i] == cards[i]);
        }
        lemma_keyword_value_absent(front, name);
    }
}

/// A header that holds a `SIMPLE` card is a primary header.
pub proof fn lemma_simple_is_primary(cards: Seq<CardText>, i: int)
    requires
        0 <= i < cards.len(),
        cards[i].keyword == "SIMPLE"@,
    ensures
        classify(cards) == Ok::<HeaderType, FitsError>(HeaderType::Primary),
{
    lemma_keyword_value_found(cards, "SIMPLE"@, i);
}

/// A header without a `SIMPLE` card is of the kind that its last
/// `XTENSION` card names, and none where that names no known kind.
pub proof fn lemma_xtension_names_the_kind(cards: Seq<CardText>, i: int)
    requires
        0 <= i < cards.len(),
        cards[i].keyword == "XTENSION"@,
        is_latest(cards, i),
        forall|j: int| 0 <= j < cards.len() ==> (#[trigger] cards[j]).keyword != "SIMPLE"@,
    ensures
        classify(cards) == extension_kind(cards[i].value),
{
    lemma_keyword_value_absent(cards, "SIMPLE"@);
    lemma_keyword_value_latest(cards, i);
}

/// The index of the first `/` in `s`, or the length of `s`.
fn find_slash(s: &[u8]) -> (i: usize)
    ensures
        i == slash_index(s@),
        i <= s@.len(),
{
    let mut i: usize = 0;
    while i < s.len() && s[i] != 47
        invariant
            i <= s@.len(),
            forall|j: int| 0 <= j < i ==> s@[j] != 47,
        decreases s@.len() - i,
    {
        i += 1;
    }
    proof {
        lemma_slash_index(s@, i as int);
    }
    i
}

/// The text of the bytes that a value keeps.
fn squeeze(bytes: &[u8]) -> (s: String)
    ensures
        s@ == ascii_text(bytes@.filter(kept())),
{
    let mut s = String::new();
    let mut i: usize = 0;
    assert(bytes@.take(0) =~= Seq::<u8>::empty());
    assert(Seq::<u8>::empty().filter(kept()) =~= Seq::<u8>::empty()) by {
        reveal(Seq::filter);
    }
    assert(s@ =~= ascii_text(Seq::<u8>::empty()));
    while i < bytes.len()
        invariant
            i <= bytes@.len(),
            s@ == ascii_text(bytes@.take(i as int).filter(kept())),
        decreases bytes@.len() - i,
    {
        let b = bytes[i];
        proof {
            let front = bytes@.take(i as int);
            assert(bytes@.take(i + 1) =~= front.push(b));
            front.lemma_filter_push(b, kept());
        }
        if !is_space_byte(b) && b != 39 {
            push_char(&mut s, b as char);
            assert(s@ =~= ascii_text(bytes@.take(i + 1).filter(kept())));
        }
        i += 1;
    }
    assert(bytes@.take(i as int) =~= bytes@);
    s
}

/// Parses one card of 80 bytes.
pub fn parse_line(buffer: &[u8]) -> (r: Result<Card, FitsError>)
    requires
        buffer@.len() == 80,
    ensures
        match r {
            Ok(card) => is_ascii_bytes(buffer@) && card@ == card_text(buffer@),
            Err(e) => e == FitsError::NonAsciiHeader && !is_ascii_bytes(buffer@),
        },
{
    if !all_ascii(buffer) {
        return Err(FitsError::NonAsciiHeader);
    }
    let name = vstd::slice::slice_subrange(buffer, 0, 8);
    let (a, b) = trim_bounds(name);
    let keyword = ascii_string(vstd::slice::slice_subrange(name, a, b));
    if buffer[8] == 61 && buffer[9] == 32 {
        let field = vstd::slice::slice_subrange(buffer, 11, 80);
        let cut = find_slash(field);
        let head = vstd::slice::slice_subrange(field, 0, cut);
        assert(head@ =~= field@.take(cut as int));
        let value = squeeze(head);
        let mut comment = String::new();
        if cut < field.len() {
            let rest = vstd::slice::slice_subrange(field, cut + 1, field.len());
            assert(rest@ =~= field@.skip(cut + 1));
            comment = ascii_string(rest);
        }
        Ok(Card { keyword, value, comment })
    } else {
        let value = ascii_string(vstd::slice::slice_subrange(buffer, 9, 80));
        Ok(Card { keyword, value, comment: String::new() })
    }
}

/// What the parsed cards say, in order.
pub open spec fn card_texts(cards: Seq<Card>) -> Seq<CardText> {
    Seq::new(cards.len(), |i: int| cards[i]@)
}

/// The last card that carries the keyword `name`, if any does.
fn find_card(cards: &Vec<Card>, name: &String) -> (r: Option<usize>)
    ensures
        match r {
            Some(i) => i < cards@.len() && cards@[i as int].keyword@ == name@ && keyword_value(
                card_texts(cards@),
                name@,
            ) == Some(cards@[i as int].value@),
            None => keyword_value(card_texts(cards@), name@) is None,
        },
{
    let ghost texts = card_texts(cards@);
    let mut i: usize = cards.len();
    assert(texts.take(i as int) =~= texts);
    while i > 0
        invariant
            i <= cards@.len(),
            texts == card_texts(cards@),
            keyword_value(texts, name@) == keyword_value(texts.take(i as int), name@),
        decreases i,
    {
        assert(texts.take(i as int).last() == cards@[i - 1]@);
        assert(texts.take(i as int).drop_last() =~= texts.take(i - 1));
        if cards[i - 1].keyword == *name {
            return Some(i - 1);
        }
        i -= 1;
    }
    None
}

/// The kind that the cards declare.
fn classify_cards(cards: &Vec<Card>) -> (r: Result<HeaderType, FitsError>)
    ensures
        r == classify(card_texts(cards@)),
{
    let simple = String::from_str("SIMPLE");
    let xtension = String::from_str("XTENSION");
    if find_card(cards, &simple).is_some() {
        return Ok(HeaderType::Primary);
    }
    match find_card(cards, &xtension) {
        Some(i) => {
            let image = String::from_str("IMAGE");
            let bintable = String::from_str("BINTABLE");
            let table = String::from_str("TABLE");
            assert(classify(card_texts(cards@)) == extension_kind(cards@[i as int].value@));
            if cards[i].value == image {
                Ok(HeaderType::Image)
            } else if cards[i].value == bintable {
                Ok(HeaderType::BinaryTable)
            } else if cards[i].value == table {
                Ok(HeaderType::ASCIITable)
            } else {
                Err(FitsError::UnknownExtension)
            }
        },
        None => Err(FitsError::UnclassifiedHeader),
    }
}

/// The header of one unit: its raw blocks and, once parsed, its cards and
/// its kind.
#[derive(Debug, Clone, PartialEq)]
pub struct Header {
    fitsblocks: Vec<[u8; 2880]>,
    header_type: HeaderType,
    initialized: bool,
    cards: Vec<Card>,
}

impl View for Header {
    type V = HeaderView;

    closed spec fn view(&self) -> HeaderView {
        HeaderView {
            blocks: crate::block::block_views(self.fitsblocks@),
            initialized: self.initialized,
            kind: self.header_type,
            cards: card_texts(self.cards@),
        }
    }
}

impl Header {
    /// A header without blocks, not yet parsed.
    pub fn new() -> (h: Header)
        ensures
            h@ == (HeaderView {
                blocks: Seq::empty(),
                initialized: false,
                kind: HeaderType::Primary,
                cards: Seq::empty(),
            }),
    {
        let h = Header {
            fitsblocks: Vec::new(),
            header_type: HeaderType::Primary,
            initialized: false,
            cards: Vec::new(),
        };
        assert(h@.blocks =~= Seq::<Seq<u8>>::empty());
        assert(h@.cards =~= Seq::<CardText>::empty());
        h
    }

    /// Parses every card of every block, 36 to a block, and classifies the
    /// header by its cards. On an error the header stays as it was.
    pub fn initialize_header(&mut self) -> (r: Result<(), FitsError>)
        ensures
            match r {
                Ok(()) => parsed_header(old(self)@.blocks) == Ok::<HeaderView, FitsError>(
                    final(self)@,
                ),
                Err(e) => parsed_header(old(self)@.blocks) == Err::<HeaderView, FitsError>(e)
                    && final(self)@ == old(self)@,
            },
    {
        broadcast use vstd::array::group_array_axioms;

        let ghost blocks = self@.blocks;
        let mut cards: Vec<Card> = Vec::new();
        let mut i: usize = 0;
        while i < self.fitsblocks.len()
            invariant
                *self == *old(self),
                blocks == self@.blocks,
                blocks.len() == self.fitsblocks@.len(),
                i <= blocks.len(),
                cards@.len() == i * 36,
                forall|b: int| 0 <= b < i ==> is_ascii_bytes(#[trigger] blocks[b]),
                forall|k: int|
                    0 <= k < cards@.len() ==> (#[trigger] cards@[k])@ == card_text(
                        card_at(blocks, k),
                    ),
            decreases blocks.len() - i,
        {
            let block = self.fitsblocks[i].as_slice();
            assert(block@ == blocks[i as int]);
            if !all_ascii(block) {
                return Err(FitsError::NonAsciiHeader);
            }
            let mut j: usize = 0;
            while j < CARDS_PER_BLOCK
                invariant
                    j <= 36,
                    i < blocks.len(),
                    block@ == blocks[i as int],
                    block@.len() == 2880,
                    is_ascii_bytes(block@),
                    cards@.len() == i * 36 + j,
                    forall|k: int|
                        0 <= k < cards@.len() ==> (#[trigger] cards@[k])@ == card_text(
                            card_at(blocks, k),
                        ),
                decreases 36 - j,
            {
                let line = vstd::slice::slice_subrange(block, j * CARD_SIZE, j * CARD_SIZE + CARD_SIZE);
                let ghost k = i * 36 + j;
                assert(k / 36 == i && k % 36 == j);
                assert(line@ == card_at(blocks, k as int));
                match parse_line(line) {
                    Ok(card) => {
                        cards.push(card);
                    },
                    Err(e) => {
                        return Err(e);
                    },
                }
                j += 1;
            }
            i += 1;
        }
        assert(card_texts(cards@) =~= all_cards(blocks));
        match classify_cards(&cards) {
            Ok(kind) => {
                self.header_type = kind;
                self.initialized = true;
                self.cards = cards;
                Ok(())
            },
            Err(e) => Err(e),
        }
    }

    /// Appends a raw block. The cards and the kind stay as they are.
    pub fn append(&mut self, chunk: [u8; 2880])
        ensures
            final(self)@ == (HeaderView {
                blocks: old(self)@.blocks.push(chunk@),
                ..old(self)@
            }),
    {
        self.fitsblocks.push(chunk);
        assert(self@.blocks =~= old(self)@.blocks.push(chunk@));
    }

    /// Whether the header has no block yet.
    pub fn is_empty(&self) -> (r: bool)
        ensures
            r == (self@.blocks.len() == 0),
    {
        self.fitsblocks.len() == 0
    }

    /// Whether the cards were parsed and the kind was found.
    pub fn is_initialized(&self) -> (r: bool)
        ensures
            r == self@.initialized,
    {
        self.initialized
    }

    /// The raw blocks.
    pub fn get_fitsblocks(&self) -> (blocks: &Vec<[u8; 2880]>)
        ensures
            crate::block::block_views(blocks@) == self@.blocks,
    {
        &self.fitsblocks
    }

    /// The parsed cards, in order.
    pub fn get_cards(&self) -> (cards: &Vec<Card>)
        ensures
            card_texts(cards@) == self@.cards,
    {
        &self.cards
    }

    /// The kind of a parsed header.
    pub fn get_header_type(&self) -> (kind: HeaderType)
        requires
            self@.initialized,
        ensures
            kind == self@.kind,
    {
        self.header_type
    }

    /// The kind that the parsed cards declare.
    pub fn check_type(&self) -> (r: Result<HeaderType, FitsError>)
        ensures
            r == if self@.initialized {
                classify(self@.cards)
            } else {
                Err(FitsError::HeaderNotInitialized)
            },
    {
        if !self.initialized {
            return Err(FitsError::HeaderNotInitialized);
        }
        classify_cards(&self.cards)
    }

    /// The value of a keyword, that of the last card that carries it, or
    /// `None` where no card does.
    pub fn get_keyword(&self, keyword: &str) -> (r: Option<String>)
        ensures
            match r {
                Some(v) => keyword_value(self@.cards, keyword@) == Some(v@),
                None => keyword_value(self@.cards, keyword@) is None,
            },
    {
        let name = String::from_str(keyword);
        match find_card(&self.cards, &name) {
            Some(i) => Some(self.cards[i].value.clone()),
            None => None,
        }
    }

    /// The keywords with their values, each keyword once, in the order of the
    /// last card that carries it. The order is the same whether or not
    /// `sorted` is set.
    pub fn list_keywords(&self, sorted: bool) -> (r: Vec<(String, String)>)
        ensures
            r@.len() == latest_entries(self@.cards, self@.cards.len() as int).len(),
            forall|i: int|
                0 <= i < r@.len() ==> (#[trigger] r@[i]).0@ == latest_entries(
                    self@.cards,
                    self@.cards.len() as int,
                )[i].0 && r@[i].1@ == latest_entries(self@.cards, self@.cards.len() as int)[i].1,
    {
        let ghost texts = self@.cards;
        let mut r: Vec<(String, String)> = Vec::new();
        let n = self.cards.len();
        let mut i: usize = 0;
        while i < n
            invariant
                i <= n,
                n == self.cards@.len(),
                texts == card_texts(self.cards@),
                r@.len() == latest_entries(texts, i as int).len(),
                forall|k: int|
                    0 <= k < r@.len() ==> (#[trigger] r@[k]).0@ == latest_entries(
                        texts,
                        i as int,
                    )[k].0 && r@[k].1@ == latest_entries(texts, i as int)[k].1,
            decreases n - i,
        {
            let mut latest = true;
            let mut j: usize = i + 1;
            while j < n
                invariant
                    i < j <= n,
                    n == self.cards@.len(),
                    texts == card_texts(self.cards@),
                    latest == (forall|k: int|
                        i < k < j ==> (#[trigger] texts[k]).keyword != texts[i as int].keyword),
                decreases n - j,
            {
                if self.cards[j].keyword == self.cards[i].keyword {
                    latest = false;
                    assert(texts[j as int].keyword == texts[i as int].keyword);
                }
                j += 1;
            }
            assert(latest == is_latest(texts, i as int));
            if latest {
                r.push((self.cards[i].keyword.clone(), self.cards[i].value.clone()));
            }
            i += 1;
        }
        r
    }
}

/// The integer that the cards give a required keyword, between `lo` and `hi`.
pub open spec fn required_int(
    cards: Seq<CardText>,
    name: Seq<char>,
    signed: bool,
    lo: int,
    hi: int,
) -> Result<int, FitsError> {
    match keyword_value(cards, name) {
        None => Err(FitsError::MissingKeyword),
        Some(v) => match within(text_integer(v, signed), lo, hi) {
            Some(x) => Ok(x),
            None => Err(FitsError::BadKeywordValue),
        },
    }
}

/// The value that the cards give a required keyword.
pub open spec fn required_text(cards: Seq<CardText>, name: Seq<char>) -> Result<
    Seq<char>,
    FitsError,
> {
    match keyword_value(cards, name) {
        None => Err(FitsError::MissingKeyword),
        Some(v) => Ok(v),
    }
}

/// The unsigned integers, at most `hi`, that the cards give the keywords
/// `prefix1` to `prefixn`, or the error of the first of them that fails.
pub open spec fn indexed_ints(cards: Seq<CardText>, prefix: Seq<char>, n: nat, hi: int) -> Result<
    Seq<int>,
    FitsError,
>
    decreases n,
{
    if n == 0 {
        Ok(Seq::empty())
    } else {
        match indexed_ints(cards, prefix, (n - 1) as nat, hi) {
            Err(e) => Err(e),
            Ok(front) => match required_int(cards, prefix + decimal_text(n), false, 0, hi) {
                Err(e) => Err(e),
                Ok(x) => Ok(front.push(x)),
            },
        }
    }
}

/// The values that the cards give the keywords `prefix1` to `prefixn`, or
/// the error of the first of them that fails.
pub open spec fn indexed_texts(cards: Seq<CardText>, prefix: Seq<char>, n: nat) -> Result<
    Seq<Seq<char>>,
    FitsError,
>
    decreases n,
{
    if n == 0 {
        Ok(Seq::empty())
    } else {
        match indexed_texts(cards, prefix, (n - 1) as nat) {
            Err(e) => Err(e),
            Ok(front) => match required_text(cards, prefix + decimal_text(n)) {
                Err(e) => Err(e),
                Ok(v) => Ok(front.push(v)),
            },
        }
    }
}

/// As many integers are read as keywords are numbered.
pub proof fn lemma_indexed_ints_len(cards: Seq<CardText>, prefix: Seq<char>, n: nat, hi: int)
    ensures
        indexed_ints(cards, prefix, n, hi) matches Ok(s) ==> s.len() == n && forall|i: int|
            0 <= i < n ==> 0 <= #[trigger] s[i] <= hi,
    decreases n,
{
    if n > 0 {
        lemma_indexed_ints_len(cards, prefix, (n - 1) as nat, hi);
    }
}

/// As many values are read as keywords are numbered.
pub proof fn lemma_indexed_texts_len(cards: Seq<CardText>, prefix: Seq<char>, n: nat)
    ensures
        indexed_texts(cards, prefix, n) matches Ok(s) ==> s.len() == n,
    decreases n,
{
    if n > 0 {
        lemma_indexed_texts_len(cards, prefix, (n - 1) as nat);
    }
}

/// Once one of the numbered keywords fails, so does every longer run.
pub proof fn lemma_indexed_ints_error(
    cards: Seq<CardText>,
    prefix: Seq<char>,
    i: nat,
    n: nat,
    hi: int,
)
    requires
        i <= n,
        indexed_ints(cards, prefix, i, hi) is Err,
    ensures
        indexed_ints(cards, prefix, n, hi) == indexed_ints(cards, prefix, i, hi),
    decreases n,
{
    if i < n {
        lemma_indexed_ints_error(cards, prefix, i, (n - 1) as nat, hi);
    }
}

/// Once one of the numbered keywords is absent, every longer run fails as well.
pub proof fn lemma_indexed_texts_error(cards: Seq<CardText>, prefix: Seq<char>, i: nat, n: nat)
    requires
        i <= n,
        indexed_texts(cards, prefix, i) is Err,
    ensures
        indexed_texts(cards, prefix, n) == indexed_texts(cards, prefix, i),
    decreases n,
{
    if i < n {
        lemma_indexed_texts_error(cards, prefix, i, (n - 1) as nat);
    }
}

/// Reads the integer of a required keyword.
pub fn read_int(header: &Header, keyword: &str, signed: bool, lo: i128, hi: i128) -> (r: Result<
    i128,
    FitsError,
>)
    ensures
        match r {
            Ok(x) => required_int(header@.cards, keyword@, signed, lo as int, hi as int) == Ok::<
                int,
                FitsError,
            >(x as int),
            Err(e) => required_int(header@.cards, keyword@, signed, lo as int, hi as int) == Err::<
                int,
                FitsError,
            >(e),
        },
{
    match header.get_keyword(keyword) {
        None => Err(FitsError::MissingKeyword),
        Some(v) => match parse_text(v.as_str(), signed, lo, hi) {
            Some(x) => Ok(x),
            None => Err(FitsError::BadKeywordValue),
        },
    }
}

/// Reads the unsigned integers of the keywords `prefix1` to `prefixn`.
pub fn read_indexed_ints(header: &Header, prefix: &str, n: u32, hi: usize) -> (r: Result<
    Vec<usize>,
    FitsError,
>)
    ensures
        match r {
            Ok(v) => indexed_ints(header@.cards, prefix@, n as nat, hi as int) matches Ok(s)
                && v@.len() == s.len() && forall|i: int|
                0 <= i < v@.len() ==> #[trigger] v@[i] as int == s[i],
            Err(e) => indexed_ints(header@.cards, prefix@, n as nat, hi as int) == Err::<
                Seq<int>,
                FitsError,
            >(e),
        },
{
    let mut v: Vec<usize> = Vec::new();
    let mut i: u32 = 0;
    while i < n
        invariant
            i <= n,
            indexed_ints(header@.cards, prefix@, i as nat, hi as int) matches Ok(s) && v@.len()
                == s.len() && forall|k: int| 0 <= k < v@.len() ==> #[trigger] v@[k] as int == s[k],
        decreases n - i,
    {
        i += 1;
        let name = indexed_keyword(prefix, i);
        match read_int(header, name.as_str(), false, 0, hi as i128) {
            Ok(x) => {
                v.push(x as usize);
            },
            Err(e) => {
                proof {
                    lemma_indexed_ints_error(header@.cards, prefix@, i as nat, n as nat, hi as int);
                }
                return Err(e);
            },
        }
    }
    Ok(v)
}

/// Reads the values of the keywords `prefix1` to `prefixn`.
pub fn read_indexed_texts(header: &Header, prefix: &str, n: u32) -> (r: Result<
    Vec<String>,
    FitsError,
>)
    ensures
        match r {
            Ok(v) => indexed_texts(header@.cards, prefix@, n as nat) matches Ok(s) && v@.len()
                == s.len() && forall|i: int| 0 <= i < v@.len() ==> (#[trigger] v@[i])@ == s[i],
            Err(e) => indexed_texts(header@.cards, prefix@, n as nat) == Err::<
                Seq<Seq<char>>,
                FitsError,
            >(e),
        },
{
    let mut v: Vec<String> = Vec::new();
    let mut i: u32 = 0;
    while i < n
        invariant
            i <= n,
            indexed_texts(header@.cards, prefix@, i as nat) matches Ok(s) && v@.len() == s.len()
                && forall|k: int| 0 <= k < v@.len() ==> (#[trigger] v@[k])@ == s[k],
        decreases n - i,
    {
        i += 1;
        let name = indexed_keyword(prefix, i);
        match header.get_keyword(name.as_str()) {
            Some(x) => {
                v.push(x);
            },
            None => {
                proof {
                    lemma_indexed_texts_error(header@.cards, prefix@, i as nat, n as nat);
                }
                return Err(FitsError::MissingKeyword);
            },
        }
    }
    Ok(v)
}

} // verus!
