use isocolour::colours::discord_table;
use isocolour::{ColourKey, DiscordColourIterator, RGBIterator};

#[test]
fn discord_iterator_cycles_the_eight_codes() {
    let mut it = DiscordColourIterator::new(9);
    let mut got = Vec::new();
    while let Some(c) = it.next() {
        got.push(c.value);
    }
    assert_eq!(got, vec![31, 32, 33, 34, 35, 36, 37, 30, 31]);
}

#[test]
fn discord_iterator_stops_at_total() {
    let mut it = DiscordColourIterator::new(0);
    assert!(it.next().is_none());
    let mut it = DiscordColourIterator::new(2);
    assert!(it.next().is_some());
    assert!(it.next().is_some());
    assert!(it.next().is_none());
    assert!(it.next().is_none());
}

#[test]
fn discord_table_matches_the_iterator() {
    let table = discord_table(10);
    assert_eq!(table.len(), 10);
    let mut it = DiscordColourIterator::new(10);
    for entry in &table {
        assert_eq!(entry.value, it.next().unwrap().value);
    }
}

#[test]
fn rgb_iterator_hands_out_indices_in_order() {
    let mut it = RGBIterator::new(3);
    assert_eq!(it.next_index(), Some(0));
    assert_eq!(it.next_index(), Some(1));
    assert_eq!(it.next_index(), Some(2));
    assert_eq!(it.next_index(), None);
}

#[test]
fn colour_keys_count_upward() {
    let k = ColourKey { idx: 0 };
    let k1 = k.next();
    assert_eq!(k1.idx, 1);
    assert_eq!(k1.next().idx, 2);
}
