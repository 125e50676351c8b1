use oboete::models::Flashcard;
use oboete::utils::{select_flashcard_at, select_random_flashcard};

fn card(front: &str, status: i32) -> Flashcard {
    Flashcard {
        id: None,
        front: String::from(front),
        back: String::from(front).to_uppercase(),
        status,
    }
}

/// Deterministic generator for reproducible draws (a linear congruential
/// generator with the classic MMIX constants).
struct Lcg(u64);

impl Lcg {
    fn next_below(&mut self, n: u64) -> u64 {
        self.0 = self
            .0
            .wrapping_mul(6364136223846793005)
            .wrapping_add(1442695040888963407);
        (self.0 >> 33) % n
    }
}

#[test]
fn empty_deck_yields_nothing_every_time() {
    let deck: Vec<Flashcard> = Vec::new();
    for _ in 0..100 {
        assert!(select_random_flashcard(&deck).is_none());
    }
    for i in 0..100 {
        assert!(select_flashcard_at(&deck, i).is_none());
    }
}

#[test]
fn nonempty_deck_always_yields_a_deck_card() {
    let deck = vec![card("a", 1), card("b", 2), card("c", 3)];
    for _ in 0..200 {
        let picked = select_random_flashcard(&deck).expect("deck is not empty");
        assert!(deck.iter().any(|c| c.front == picked.front
            && c.back == picked.back
            && c.status == picked.status
            && c.id == picked.id));
    }
}

#[test]
fn pool_positions_follow_the_weights() {
    // Statuses [1, 1, 2, 3] give weights [4, 4, 3, 1]: the virtual pool is
    // a x4, b x4, c x3, d x1, twelve entries in deck order.
    let deck = vec![card("a", 1), card("b", 1), card("c", 2), card("d", 3)];
    let expected = [
        "a", "a", "a", "a", "b", "b", "b", "b", "c", "c", "c", "d",
    ];
    for (k, want) in expected.iter().enumerate() {
        let got = select_flashcard_at(&deck, k).expect("deck is not empty");
        assert_eq!(&got.front, want, "pool position {k}");
    }
    // Indices wrap around the pool length.
    assert_eq!(select_flashcard_at(&deck, 12).unwrap().front, "a");
    assert_eq!(select_flashcard_at(&deck, 23).unwrap().front, "d");
}

#[test]
fn weight_defaults_for_unknown_statuses() {
    // Status 0 and statuses >= 4 weigh 2 each: pool is a x2, b x2.
    let deck = vec![card("a", 0), card("b", 9)];
    let expected = ["a", "a", "b", "b"];
    for (k, want) in expected.iter().enumerate() {
        let got = select_flashcard_at(&deck, k).expect("deck is not empty");
        assert_eq!(&got.front, want, "pool position {k}");
    }
}

#[test]
fn seeded_draw_frequencies_approximate_the_weights() {
    // Over many seeded uniform draws from the twelve pool positions, each
    // status-1 card should appear about 4/12 of the time and the status-3
    // card about 1/12.
    let deck = vec![card("a", 1), card("b", 1), card("c", 2), card("d", 3)];
    let mut rng = Lcg(0xfeed5eed);
    let total = 12000;
    let mut counts = [0usize; 4];
    for _ in 0..total {
        let k = rng.next_below(12) as usize;
        let picked = select_flashcard_at(&deck, k).expect("deck is not empty");
        let slot = deck
            .iter()
            .position(|c| c.front == picked.front)
            .expect("picked card comes from the deck");
        counts[slot] += 1;
    }
    let freq = |i: usize| counts[i] as f64 / total as f64;
    let tolerance = 0.025;
    assert!((freq(0) - 4.0 / 12.0).abs() < tolerance, "a: {}", freq(0));
    assert!((freq(1) - 4.0 / 12.0).abs() < tolerance, "b: {}", freq(1));
    assert!((freq(2) - 3.0 / 12.0).abs() < tolerance, "c: {}", freq(2));
    assert!((freq(3) - 1.0 / 12.0).abs() < tolerance, "d: {}", freq(3));
}

#[test]
fn returned_card_is_an_independent_copy() {
    let mut deck = vec![card("a", 3)];
    let picked = select_random_flashcard(&deck).expect("deck is not empty");
    deck[0].front = String::from("mutated");
    assert_eq!(picked.front, "a");
}
