//! Pure data-transformation utilities: weighted random flashcard selection
//! and delimiter-based bulk import parsing.

use vstd::prelude::*;

use crate::models::Flashcard;
use crate::models::FlashcardView;
use crate::text::match_at;
use crate::text::split_by;
use crate::text::split_literal;
use crate::text::split_sub;
use crate::text::string_views;

verus! {

// ------------------------------------------------------------------
// Import parsing
// ------------------------------------------------------------------

/// The not-yet-persisted flashcard made from the first two segments of an
/// import line: no identifier, status "new".
pub open spec fn card_of_segs(segs: Seq<Seq<char>>) -> FlashcardView {
    FlashcardView { id: None, front: segs[0], back: segs[1], status: 0 }
}

/// The flashcards made from a sequence of import lines: each line is split
/// on the term delimiter; lines with fewer than two segments are dropped,
/// segments beyond the second are ignored.
pub open spec fn cards_of_lines(lines: Seq<Seq<char>>, td: Seq<char>) -> Seq<FlashcardView>
    decreases lines.len(),
{
    if lines.len() == 0 {
        Seq::empty()
    } else {
        let segs = split_by(lines[0], td);
        let rest = cards_of_lines(lines.drop_first(), td);
        if segs.len() >= 2 {
            seq![card_of_segs(segs)] + rest
        } else {
            rest
        }
    }
}

/// What import parsing returns: split the content into lines on the line
/// delimiter, then turn each line with at least two term segments into a
/// flashcard, in input order.
pub open spec fn parse_spec(ld: Seq<char>, td: Seq<char>, content: Seq<char>) -> Seq<
    FlashcardView,
> {
    cards_of_lines(split_by(content, ld), td)
}

/// The views of a sequence of flashcards.
pub open spec fn card_views(v: Seq<Flashcard>) -> Seq<FlashcardView> {
    v.map_values(|c: Flashcard| c@)
}

proof fn lemma_cards_of_lines_push(lines: Seq<Seq<char>>, td: Seq<char>, x: Seq<char>)
    ensures
        cards_of_lines(lines.push(x), td) == cards_of_lines(lines, td) + (if split_by(x, td).len()
            >= 2 {
            seq![card_of_segs(split_by(x, td))]
        } else {
            Seq::<FlashcardView>::empty()
        }),
    decreases lines.len(),
{
    let whole = lines.push(x);
    let ghost tail = if split_by(x, td).len() >= 2 {
        seq![card_of_segs(split_by(x, td))]
    } else {
        Seq::<FlashcardView>::empty()
    };
    if lines.len() == 0 {
        assert(whole[0] == x);
        assert(whole.drop_first() =~= Seq::<Seq<char>>::empty());
        assert(cards_of_lines(Seq::<Seq<char>>::empty(), td) == Seq::<FlashcardView>::empty());
        assert(cards_of_lines(whole.drop_first(), td) == Seq::<FlashcardView>::empty());
        if split_by(x, td).len() >= 2 {
            assert(seq![card_of_segs(split_by(x, td))] + Seq::<FlashcardView>::empty() =~= seq![
                card_of_segs(split_by(x, td)),
            ]);
            assert(Seq::<FlashcardView>::empty() + seq![card_of_segs(split_by(x, td))] =~= seq![
                card_of_segs(split_by(x, td)),
            ]);
        } else {
            assert(Seq::<FlashcardView>::empty() + tail =~= Seq::<FlashcardView>::empty());
        }
    } else {
        assert(whole[0] == lines[0]);
        assert(whole.drop_first() =~= lines.drop_first().push(x));
        lemma_cards_of_lines_push(lines.drop_first(), td, x);
        let ghost deeper = cards_of_lines(lines.drop_first(), td);
        if split_by(lines[0], td).len() >= 2 {
            let ghost head = seq![card_of_segs(split_by(lines[0], td))];
            assert(head + (deeper + tail) =~= (head + deeper) + tail);
        }
    }
}

/// Split `content` into lines on `line_delimiter`, split each line on
/// `term_delimiter`, and keep the first two segments of each line as the
/// front and back of a new flashcard. Lines with fewer than two segments
/// are silently dropped; extra segments are ignored. The returned cards
/// have no identifier and status 0, in the order of their lines.
pub fn parse_import_content(
    line_delimiter: &String,
    term_delimiter: &String,
    content: &str,
) -> (r: Vec<Flashcard>)
    ensures
        card_views(r@) == parse_spec(line_delimiter@, term_delimiter@, content@),
{
    let lines = split_literal(content, line_delimiter.as_str());
    let ghost line_seqs = string_views(lines@);
    let mut out: Vec<Flashcard> = Vec::new();
    let mut k: usize = 0;
    proof {
        assert(line_seqs.take(0) =~= Seq::<Seq<char>>::empty());
        assert(card_views(out@) =~= cards_of_lines(line_seqs.take(0), term_delimiter@));
    }
    while k < lines.len()
        invariant
            k <= lines@.len(),
            line_seqs == string_views(lines@),
            card_views(out@) == cards_of_lines(line_seqs.take(k as int), term_delimiter@),
        decreases lines@.len() - k,
    {
        let line = &lines[k];
        let segs = split_literal(line.as_str(), term_delimiter.as_str());
        proof {
            assert(line_seqs[k as int] == lines@[k as int]@);
            assert(line_seqs.take(k + 1) =~= line_seqs.take(k as int).push(line_seqs[k as int]));
            lemma_cards_of_lines_push(
                line_seqs.take(k as int),
                term_delimiter@,
                line_seqs[k as int],
            );
        }
        if segs.len() >= 2 {
            let front = segs[0].clone();
            let back = segs[1].clone();
            let card = Flashcard { id: None, front, back, status: 0 };
            proof {
                assert(string_views(segs@)[0] == segs@[0]@);
                assert(string_views(segs@)[1] == segs@[1]@);
                assert(card@ =~= card_of_segs(split_by(line_seqs[k as int], term_delimiter@)));
                assert(card_views(out@.push(card)) =~= card_views(out@).push(card@));
                assert(card_views(out@).push(card@) =~= card_views(out@) + seq![card@]);
            }
            out.push(card);
        } else {
            proof {
                assert(card_views(out@) + Seq::<FlashcardView>::empty() =~= card_views(out@));
            }
        }
        k += 1;
    }
    proof {
        assert(line_seqs.take(lines@.len() as int) =~= line_seqs);
    }
    out
}

/// Law: empty import content yields no cards, whatever the line delimiter.
/// A non-empty term delimiter is required: an empty one splits even an
/// empty line into two empty segments and so makes one blank card of it.
pub proof fn lemma_empty_content_parses_to_nothing(ld: Seq<char>, td: Seq<char>)
    requires
        td.len() > 0,
    ensures
        parse_spec(ld, td, Seq::empty()) == Seq::<FlashcardView>::empty(),
{
    let content = Seq::<char>::empty();
    assert(split_by(content, td) == seq![Seq::<char>::empty()]);
    assert(cards_of_lines(Seq::<Seq<char>>::empty(), td) == Seq::<FlashcardView>::empty());
    if ld.len() == 0 {
        let lines = split_by(content, ld);
        assert(content.map_values(|c: char| seq![c]) =~= Seq::<Seq<char>>::empty());
        assert(lines =~= seq![Seq::<char>::empty(), Seq::<char>::empty()]);
        assert(lines[0] == Seq::<char>::empty());
        assert(lines.drop_first() =~= seq![Seq::<char>::empty()]);
        assert(lines.drop_first()[0] == Seq::<char>::empty());
        assert(lines.drop_first().drop_first() =~= Seq::<Seq<char>>::empty());
        assert(cards_of_lines(lines.drop_first(), td) == Seq::<FlashcardView>::empty());
        assert(cards_of_lines(lines, td) == Seq::<FlashcardView>::empty());
    } else {
        let lines = split_by(content, ld);
        assert(lines == seq![Seq::<char>::empty()]);
        assert(lines[0] == Seq::<char>::empty());
        assert(lines.drop_first() =~= Seq::<Seq<char>>::empty());
        assert(cards_of_lines(lines, td) == Seq::<FlashcardView>::empty());
    }
}

// ------------------------------------------------------------------
// Import round trip
// ------------------------------------------------------------------

/// `s` contains no character of `d`.
pub open spec fn avoids_chars_of(s: Seq<char>, d: Seq<char>) -> bool {
    forall|i: int, j: int| 0 <= i < s.len() && 0 <= j < d.len() ==> s[i] != d[j]
}

/// The import line that a parsed card came from: front, term delimiter,
/// back.
pub open spec fn line_of_card(c: FlashcardView, td: Seq<char>) -> Seq<char> {
    c.front + td + c.back
}

/// Parsed cards joined back into import content: their lines, separated by
/// the line delimiter.
pub open spec fn join_cards(cards: Seq<FlashcardView>, ld: Seq<char>, td: Seq<char>) -> Seq<char>
    decreases cards.len(),
{
    if cards.len() == 0 {
        Seq::empty()
    } else if cards.len() == 1 {
        line_of_card(cards[0], td)
    } else {
        line_of_card(cards[0], td) + ld + join_cards(cards.drop_first(), ld, td)
    }
}

/// The cards have the shape of parser output (no identifier, status 0) and
/// both delimiters are non-empty and literal-safe: no term holds a
/// character of either delimiter, and the term delimiter holds no
/// character of the line delimiter.
pub open spec fn reimportable(cards: Seq<FlashcardView>, ld: Seq<char>, td: Seq<char>) -> bool {
    &&& ld.len() > 0
    &&& td.len() > 0
    &&& avoids_chars_of(td, ld)
    &&& forall|i: int|
        0 <= i < cards.len() ==> {
            &&& (#[trigger] cards[i]).id is None
            &&& cards[i].status == 0
            &&& avoids_chars_of(cards[i].front, ld)
            &&& avoids_chars_of(cards[i].front, td)
            &&& avoids_chars_of(cards[i].back, ld)
            &&& avoids_chars_of(cards[i].back, td)
        }
}

proof fn lemma_avoids_concat(a: Seq<char>, b: Seq<char>, d: Seq<char>)
    requires
        avoids_chars_of(a, d),
        avoids_chars_of(b, d),
    ensures
        avoids_chars_of(a + b, d),
{
    assert forall|i: int, j: int|
        0 <= i < (a + b).len() && 0 <= j < d.len() implies (a + b)[i] != d[j] by {
        if i < a.len() {
            assert((a + b)[i] == a[i]);
        } else {
            assert((a + b)[i] == b[i - a.len()]);
        }
    }
}

/// Splitting a sequence that holds no delimiter character yields the
/// sequence whole.
proof fn lemma_split_avoiding(s: Seq<char>, d: Seq<char>)
    requires
        d.len() > 0,
        avoids_chars_of(s, d),
    ensures
        split_sub(s, d) == seq![s],
    decreases s.len(),
{
    if s.len() == 0 {
        assert(s =~= Seq::<char>::empty());
        assert(split_sub(s, d) =~= seq![s]);
    } else {
        assert(!match_at(s, d, 0)) by {
            if match_at(s, d, 0) {
                assert(s.subrange(0, d.len() as int)[0] == s[0]);
            }
        }
        assert(avoids_chars_of(s.skip(1), d)) by {
            assert(forall|i: int, j: int|
                0 <= i < s.skip(1).len() && 0 <= j < d.len() ==> s.skip(1)[i] == s[i + 1]
                    && s[i + 1] != d[j]);
        }
        lemma_split_avoiding(s.skip(1), d);
        let rest = split_sub(s.skip(1), d);
        assert(rest[0] == s.skip(1));
        assert(seq![s[0]] + s.skip(1) =~= s);
        assert(rest.skip(1) =~= Seq::<Seq<char>>::empty());
        assert(split_sub(s, d) =~= seq![s]);
    }
}

/// Splitting `a + d + rest` where `a` holds no character of the delimiter
/// `d`: the first piece is exactly `a`, and the rest splits on its own.
proof fn lemma_split_at_boundary(a: Seq<char>, d: Seq<char>, rest: Seq<char>)
    requires
        d.len() > 0,
        avoids_chars_of(a, d),
    ensures
        split_sub(a + d + rest, d) == seq![a] + split_sub(rest, d),
    decreases a.len(),
{
    let s = a + d + rest;
    if a.len() == 0 {
        assert(match_at(s, d, 0)) by {
            assert(s.subrange(0, d.len() as int) =~= d);
        }
        assert(s.skip(d.len() as int) =~= rest);
        assert(a =~= Seq::<char>::empty());
        assert(seq![a] =~= seq![Seq::<char>::empty()]);
    } else {
        assert(s[0] == a[0]);
        assert(!match_at(s, d, 0)) by {
            if match_at(s, d, 0) {
                assert(s.subrange(0, d.len() as int)[0] == s[0]);
            }
        }
        assert(avoids_chars_of(a.skip(1), d)) by {
            assert(forall|i: int, j: int|
                0 <= i < a.skip(1).len() && 0 <= j < d.len() ==> a.skip(1)[i] == a[i + 1]
                    && a[i + 1] != d[j]);
        }
        lemma_split_at_boundary(a.skip(1), d, rest);
        assert(s.skip(1) =~= a.skip(1) + d + rest);
        let deeper = split_sub(s.skip(1), d);
        assert(deeper == seq![a.skip(1)] + split_sub(rest, d));
        assert(deeper[0] == a.skip(1));
        assert(seq![s[0]] + a.skip(1) =~= a);
        assert(deeper.skip(1) =~= split_sub(rest, d));
        assert(split_sub(s, d) =~= seq![a] + split_sub(rest, d));
    }
}

/// A line made of two delimiter-free terms splits into exactly those terms.
proof fn lemma_split_line(front: Seq<char>, back: Seq<char>, td: Seq<char>)
    requires
        td.len() > 0,
        avoids_chars_of(front, td),
        avoids_chars_of(back, td),
    ensures
        split_sub(front + td + back, td) == seq![front, back],
{
    lemma_split_at_boundary(front, td, back);
    lemma_split_avoiding(back, td);
    assert(seq![front] + seq![back] =~= seq![front, back]);
}

/// Law: parsing is a left inverse of joining. Re-parsing the joined form
/// of previously parsed cards — with the same delimiters — yields the same
/// card sequence, provided the terms are free of delimiter characters.
pub proof fn lemma_parse_round_trip(cards: Seq<FlashcardView>, ld: Seq<char>, td: Seq<char>)
    requires
        reimportable(cards, ld, td),
    ensures
        parse_spec(ld, td, join_cards(cards, ld, td)) == cards,
    decreases cards.len(),
{
    if cards.len() == 0 {
        let joined = join_cards(cards, ld, td);
        assert(joined =~= Seq::<char>::empty());
        assert(split_by(joined, ld) == seq![Seq::<char>::empty()]);
        assert(split_by(Seq::<char>::empty(), td) == seq![Seq::<char>::empty()]);
        let lines = seq![Seq::<char>::empty()];
        assert(lines[0] == Seq::<char>::empty());
        assert(lines.drop_first() =~= Seq::<Seq<char>>::empty());
        assert(cards_of_lines(Seq::<Seq<char>>::empty(), td) == Seq::<FlashcardView>::empty());
        assert(cards_of_lines(lines, td) =~= cards);
    } else {
        let c = cards[0];
        let line = line_of_card(c, td);
        assert(avoids_chars_of(line, ld)) by {
            lemma_avoids_concat(c.front, td, ld);
            lemma_avoids_concat(c.front + td, c.back, ld);
        }
        lemma_split_line(c.front, c.back, td);
        if cards.len() == 1 {
            let joined = join_cards(cards, ld, td);
            assert(joined == line);
            lemma_split_avoiding(line, ld);
            let lines = seq![line];
            assert(lines.drop_first() =~= Seq::<Seq<char>>::empty());
            assert(cards_of_lines(lines.drop_first(), td) == Seq::<FlashcardView>::empty());
            assert(card_of_segs(seq![c.front, c.back]) =~= c);
            assert(seq![c] + Seq::<FlashcardView>::empty() =~= cards);
        } else {
            let tail_cards = cards.drop_first();
            assert(reimportable(tail_cards, ld, td)) by {
                assert(forall|i: int|
                    0 <= i < tail_cards.len() ==> tail_cards[i] == cards[i + 1]);
            }
            lemma_parse_round_trip(tail_cards, ld, td);
            let tail_joined = join_cards(tail_cards, ld, td);
            let joined = join_cards(cards, ld, td);
            assert(joined == line + ld + tail_joined);
            lemma_split_at_boundary(line, ld, tail_joined);
            let lines = seq![line] + split_by(tail_joined, ld);
            assert(split_by(joined, ld) == lines);
            assert(lines[0] == line);
            assert(lines.drop_first() =~= split_by(tail_joined, ld));
            assert(card_of_segs(seq![c.front, c.back]) =~= c);
            assert(cards_of_lines(lines, td) == seq![c] + cards_of_lines(
                split_by(tail_joined, ld),
                td,
            ));
            assert(seq![c] + tail_cards =~= cards);
        }
    }
}

// ------------------------------------------------------------------
// Weighted random selection
// ------------------------------------------------------------------

/// How many copies of a card the weighted pool holds: cards marked "bad"
/// (status 1) weigh 4, "ok" (status 2) weighs 3, "good" (status 3) weighs 1,
/// and every other status (including 0, "new") weighs 2.
pub open spec fn flashcard_weight(status: i32) -> nat {
    if status == 1 {
        4
    } else if status == 2 {
        3
    } else if status == 3 {
        1
    } else {
        2
    }
}

/// The virtual weighted pool: each card in order, replicated by its weight.
pub open spec fn weighted_pool_of(cards: Seq<FlashcardView>) -> Seq<FlashcardView>
    decreases cards.len(),
{
    if cards.len() == 0 {
        Seq::empty()
    } else {
        Seq::new(flashcard_weight(cards[0].status), |j: int| cards[0]) + weighted_pool_of(
            cards.drop_first(),
        )
    }
}

proof fn lemma_weighted_pool_push(cards: Seq<FlashcardView>, c: FlashcardView)
    ensures
        weighted_pool_of(cards.push(c)) == weighted_pool_of(cards) + Seq::new(
            flashcard_weight(c.status),
            |j: int| c,
        ),
    decreases cards.len(),
{
    let whole = cards.push(c);
    let block = Seq::new(flashcard_weight(c.status), |j: int| c);
    if cards.len() == 0 {
        assert(whole[0] == c);
        assert(whole.drop_first() =~= Seq::<FlashcardView>::empty());
        assert(weighted_pool_of(Seq::<FlashcardView>::empty()) == Seq::<FlashcardView>::empty());
        assert(block + Seq::<FlashcardView>::empty() =~= block);
        assert(Seq::<FlashcardView>::empty() + block =~= block);
    } else {
        assert(whole[0] == cards[0]);
        assert(whole.drop_first() =~= cards.drop_first().push(c));
        lemma_weighted_pool_push(cards.drop_first(), c);
        let head = Seq::new(flashcard_weight(cards[0].status), |j: int| cards[0]);
        let deeper = weighted_pool_of(cards.drop_first());
        assert(head + (deeper + block) =~= (head + deeper) + block);
    }
}

/// A non-empty deck always yields a non-empty pool: every weight is at
/// least 1.
pub proof fn lemma_weighted_pool_nonempty(cards: Seq<FlashcardView>)
    requires
        cards.len() > 0,
    ensures
        weighted_pool_of(cards).len() > 0,
{
}

/// Every entry of the weighted pool is one of the cards it was built from.
pub proof fn lemma_weighted_pool_membership(cards: Seq<FlashcardView>, k: int)
    requires
        0 <= k < weighted_pool_of(cards).len(),
    ensures
        exists|i: int| 0 <= i < cards.len() && cards[i] == weighted_pool_of(cards)[k],
    decreases cards.len(),
{
    let block = Seq::new(flashcard_weight(cards[0].status), |j: int| cards[0]);
    if k < block.len() {
        assert(weighted_pool_of(cards)[k] == cards[0]);
    } else {
        lemma_weighted_pool_membership(cards.drop_first(), k - block.len());
        let i0 = choose|i: int|
            0 <= i < cards.drop_first().len() && cards.drop_first()[i] == weighted_pool_of(
                cards.drop_first(),
            )[k - block.len()];
        assert(cards[i0 + 1] == cards.drop_first()[i0]);
    }
}

/// Build the expanded weighted pool: each card cloned `flashcard_weight`
/// times, in deck order.
fn build_weighted_pool(flashcards: &Vec<Flashcard>) -> (pool: Vec<Flashcard>)
    ensures
        card_views(pool@) == weighted_pool_of(card_views(flashcards@)),
{
    let ghost deck = card_views(flashcards@);
    let mut pool: Vec<Flashcard> = Vec::new();
    let mut i: usize = 0;
    proof {
        assert(deck.take(0) =~= Seq::<FlashcardView>::empty());
        assert(card_views(pool@) =~= weighted_pool_of(deck.take(0)));
    }
    while i < flashcards.len()
        invariant
            i <= flashcards@.len(),
            deck == card_views(flashcards@),
            card_views(pool@) == weighted_pool_of(deck.take(i as int)),
        decreases flashcards@.len() - i,
    {
        let card = &flashcards[i];
        let weight: usize = match card.status {
            1 => 4,
            2 => 3,
            3 => 1,
            _ => 2,
        };
        proof {
            assert(deck[i as int] == flashcards@[i as int]@);
            assert(weight as nat == flashcard_weight(card.status));
        }
        let ghost block = Seq::new(flashcard_weight(card@.status), |j: int| card@);
        let mut j: usize = 0;
        while j < weight
            invariant
                j <= weight,
                i < flashcards@.len(),
                deck == card_views(flashcards@),
                card == &flashcards@[i as int],
                weight as nat == flashcard_weight(card@.status),
                block == Seq::new(flashcard_weight(card@.status), |j: int| card@),
                card_views(pool@) == weighted_pool_of(deck.take(i as int)) + block.take(j as int),
            decreases weight - j,
        {
            let copy = card.clone();
            proof {
                assert(card_views(pool@.push(copy)) =~= card_views(pool@).push(copy@));
                assert(block.take(j + 1) =~= block.take(j as int).push(card@));
                assert(weighted_pool_of(deck.take(i as int)) + block.take(j + 1)
                    =~= (weighted_pool_of(deck.take(i as int)) + block.take(j as int)).push(
                    card@,
                ));
            }
            pool.push(copy);
            j += 1;
        }
        proof {
            assert(block.take(weight as int) =~= block);
            assert(deck.take(i + 1) =~= deck.take(i as int).push(deck[i as int]));
            lemma_weighted_pool_push(deck.take(i as int), deck[i as int]);
        }
        i += 1;
    }
    proof {
        assert(deck.take(flashcards@.len() as int) =~= deck);
    }
    pool
}

/// Relies on rand::random_range: a value drawn uniformly from the given
/// range by the thread-local generator; for `0..n` the result is below `n`,
/// and the call panics only on an empty range.
#[verifier::external_body]
fn random_index_below(n: usize) -> (r: usize)
    requires
        n > 0,
    ensures
        r < n,
{
    rand::random_range(0..n)
}

/// Deterministic core of weighted selection: the card at position
/// `index % pool.len()` of the virtual weighted pool, or nothing when the
/// deck is empty. Drawing `index` uniformly below the pool length gives
/// each card a chance proportional to its weight; a caller with a seeded
/// generator gets reproducible picks.
pub fn select_flashcard_at(flashcards: &Vec<Flashcard>, index: usize) -> (r: Option<Flashcard>)
    ensures
        r is Some <==> flashcards@.len() > 0,
        flashcards@.len() > 0 ==> ({
            let pool = weighted_pool_of(card_views(flashcards@));
            &&& pool.len() > 0
            &&& r == Some::<Flashcard>(r.unwrap())
            &&& r.unwrap()@ == pool[index as int % pool.len() as int]
        }),
{
    let pool = build_weighted_pool(flashcards);
    proof {
        assert(card_views(pool@).len() == pool@.len());
        assert(card_views(flashcards@).len() == flashcards@.len());
    }
    if pool.len() == 0 {
        proof {
            if flashcards@.len() > 0 {
                lemma_weighted_pool_nonempty(card_views(flashcards@));
            }
        }
        None
    } else {
        let k = index % pool.len();
        proof {
            assert(card_views(pool@)[k as int] == pool@[k as int]@);
        }
        Some(pool[k].clone())
    }
}

/// Pick one flashcard at random, biased by review status: each card is
/// replicated `flashcard_weight` times in a virtual pool and one pool entry
/// is drawn uniformly. Returns nothing exactly when the deck is empty; any
/// returned card is an independent copy of a pool entry (and hence of some
/// deck entry).
pub fn select_random_flashcard(flashcards: &Vec<Flashcard>) -> (r: Option<Flashcard>)
    ensures
        r is Some <==> flashcards@.len() > 0,
        r matches Some(f) ==> ({
            let pool = weighted_pool_of(card_views(flashcards@));
            exists|k: int| 0 <= k < pool.len() && f@ == pool[k]
        }),
        r matches Some(f) ==> exists|i: int|
            0 <= i < flashcards@.len() && f@ == flashcards@[i]@,
{
    let pool = build_weighted_pool(flashcards);
    proof {
        assert(card_views(pool@).len() == pool@.len());
        assert(card_views(flashcards@).len() == flashcards@.len());
    }
    if pool.len() == 0 {
        proof {
            if flashcards@.len() > 0 {
                lemma_weighted_pool_nonempty(card_views(flashcards@));
            }
        }
        None
    } else {
        let k = random_index_below(pool.len());
        proof {
            assert(card_views(pool@)[k as int] == pool@[k as int]@);
            lemma_weighted_pool_membership(card_views(flashcards@), k as int);
            let i0 = choose|i: int|
                0 <= i < card_views(flashcards@).len() && card_views(flashcards@)[i]
                    == weighted_pool_of(card_views(flashcards@))[k as int];
            assert(flashcards@[i0]@ == card_views(flashcards@)[i0]);
        }
        Some(pool[k].clone())
    }
}

} // verus!
