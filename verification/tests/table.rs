use word_freq::entries::FreqKV;
use word_freq::hasher::Hashable;
use word_freq::table::HashTable;

fn count_of(table: &HashTable, word: &str) -> Option<usize> {
    let entries = table.entries();
    let found: Vec<&FreqKV> = entries.iter().filter(|e| e.key == word).collect();
    assert!(found.len() <= 1);
    found.first().map(|e| e.value)
}

fn djb2(text: &str) -> usize {
    let mut hash: usize = 5381;
    for byte in text.bytes() {
        hash = hash.wrapping_mul(33).wrapping_add(byte as usize);
    }
    hash
}

#[test]
fn hash_of_empty_string_is_the_seed() {
    assert_eq!(String::new().hash(), 5381);
}

#[test]
fn hash_of_one_letter() {
    assert_eq!(String::from("a").hash(), 5381 * 33 + 97);
}

#[test]
fn hash_of_two_letters() {
    assert_eq!(String::from("ab").hash(), (5381 * 33 + 97) * 33 + 98);
}

#[test]
fn hash_is_taken_over_the_bytes_of_the_text() {
    // U+00E9 is the two bytes 0xC3 0xA9 in UTF-8.
    assert_eq!(String::from("\u{e9}").hash(), (5381 * 33 + 0xc3) * 33 + 0xa9);
}

#[test]
fn hash_wraps_around() {
    let long = "the quick brown fox jumps over the lazy dog".repeat(4);
    assert_eq!(String::from(long.as_str()).hash(), djb2(&long));
}

#[test]
fn hash_is_the_same_for_the_same_text() {
    let first = String::from("repeat");
    let second = String::from("repeat");
    assert_eq!(first.hash(), first.hash());
    assert_eq!(first.hash(), second.hash());
    assert_eq!(first.hash() % 10, second.hash() % 10);
}

#[test]
fn new_table_is_empty_with_ten_slots() {
    let table = HashTable::new();
    assert_eq!(table.len(), 0);
    assert_eq!(table.capacity(), 10);
    assert!(table.entries().is_empty());
}

#[test]
fn insert_counts_a_new_word_once() {
    let mut table = HashTable::new();
    table.insert(&String::from("word"));
    assert_eq!(table.len(), 1);
    assert_eq!(count_of(&table, "word"), Some(1));
    assert_eq!(count_of(&table, "other"), None);
}

#[test]
fn insert_twice_increments_and_does_not_duplicate() {
    let mut table = HashTable::new();
    let word = String::from("again");
    table.insert(&word);
    let first: Vec<String> = table.entries().into_iter().map(|e| e.key).collect();
    table.insert(&word);
    let second: Vec<String> = table.entries().into_iter().map(|e| e.key).collect();
    assert_eq!(table.len(), 1);
    assert_eq!(count_of(&table, "again"), Some(2));
    assert_eq!(first, second);
}

#[test]
fn insert_keeps_the_slot_order_of_the_other_words() {
    let mut table = HashTable::new();
    for word in ["one", "two", "three", "four"] {
        table.insert(&String::from(word));
    }
    let before: Vec<String> = table.entries().into_iter().map(|e| e.key).collect();
    table.insert(&String::from("two"));
    let after: Vec<(String, usize)> =
        table.entries().into_iter().map(|e| (e.key, e.value)).collect();
    assert_eq!(table.capacity(), 10);
    assert_eq!(after.len(), 4);
    for (i, (key, value)) in after.iter().enumerate() {
        assert_eq!(key, &before[i]);
        assert_eq!(*value, if key == "two" { 2 } else { 1 });
    }
}

#[test]
fn words_with_the_same_home_slot_are_told_apart() {
    // The hashes of "a" and "k" are 177670 and 177680: both have home slot 0
    // in a table of ten.
    let a = String::from("a");
    let k = String::from("k");
    assert_eq!(a.hash() % 10, k.hash() % 10);
    let mut table = HashTable::new();
    table.insert(&a);
    table.insert(&k);
    table.insert(&a);
    assert_eq!(table.len(), 2);
    assert_eq!(count_of(&table, "a"), Some(2));
    assert_eq!(count_of(&table, "k"), Some(1));
}

#[test]
fn probing_wraps_at_the_end_of_the_table() {
    // The hashes of "j", "t" and "V" are 177679, 177689 and 177659: all three
    // have home slot 9 in a table of ten.
    for word in ["j", "t", "V"] {
        assert_eq!(String::from(word).hash() % 10, 9);
    }
    let mut table = HashTable::new();
    for word in ["j", "t", "V", "t"] {
        table.insert(&String::from(word));
    }
    let entries: Vec<(String, usize)> =
        table.entries().into_iter().map(|e| (e.key, e.value)).collect();
    // Slot order: "t" wrapped to slot 0, "V" to slot 1, "j" sits in slot 9.
    assert_eq!(
        entries,
        vec![(String::from("t"), 2), (String::from("V"), 1), (String::from("j"), 1)]
    );
}

#[test]
fn table_stays_at_ten_slots_up_to_ten_words() {
    let mut table = HashTable::new();
    for i in 0..10 {
        table.insert(&format!("w{}", i));
        assert_eq!(table.capacity(), 10);
        assert_eq!(table.len(), i + 1);
        assert!(table.len() <= table.capacity());
    }
}

#[test]
fn eleventh_distinct_word_grows_the_table_once() {
    let mut table = HashTable::new();
    let words: Vec<String> = (0..11).map(|i| format!("token{}", i)).collect();
    let mut capacities = Vec::new();
    for word in &words {
        table.insert(word);
        capacities.push(table.capacity());
    }
    let growths = capacities.windows(2).filter(|w| w[0] != w[1]).count();
    assert_eq!(capacities[0], 10);
    assert_eq!(growths, 1);
    assert_eq!(table.capacity(), 20);
    assert_eq!(table.len(), 11);
    for word in &words {
        assert_eq!(count_of(&table, word), Some(1));
    }
}

#[test]
fn a_full_table_grows_even_for_a_word_it_holds() {
    let mut table = HashTable::new();
    for i in 0..10 {
        table.insert(&format!("w{}", i));
    }
    assert_eq!(table.capacity(), 10);
    table.insert(&String::from("w3"));
    assert_eq!(table.capacity(), 20);
    assert_eq!(table.len(), 10);
    assert_eq!(count_of(&table, "w3"), Some(2));
}

#[test]
fn extend_doubles_the_capacity_and_keeps_every_count() {
    let mut table = HashTable::new();
    for word in ["a", "b", "a", "c", "b", "a"] {
        table.insert(&String::from(word));
    }
    table.extend();
    assert_eq!(table.capacity(), 20);
    assert_eq!(table.len(), 3);
    assert_eq!(count_of(&table, "a"), Some(3));
    assert_eq!(count_of(&table, "b"), Some(2));
    assert_eq!(count_of(&table, "c"), Some(1));
    table.extend();
    assert_eq!(table.capacity(), 40);
    assert_eq!(table.len(), 3);
    assert_eq!(count_of(&table, "a"), Some(3));
}

#[test]
fn extend_places_entries_by_their_hash_in_the_wider_table() {
    // "a" and "k" share home slot 0 of ten; of twenty, "a" has 10, "k" has 0.
    let mut table = HashTable::new();
    table.insert(&String::from("a"));
    table.insert(&String::from("k"));
    let before: Vec<String> = table.entries().into_iter().map(|e| e.key).collect();
    assert_eq!(before, vec![String::from("a"), String::from("k")]);
    table.extend();
    let after: Vec<String> = table.entries().into_iter().map(|e| e.key).collect();
    assert_eq!(after, vec![String::from("k"), String::from("a")]);
}

#[test]
fn growth_in_the_middle_gives_the_counts_of_a_table_that_never_grows() {
    let words: Vec<String> = (0..60).map(|i| format!("w{}", i % 25)).collect();
    let mut grows = HashTable::new();
    let mut wide = HashTable::new();
    wide.extend();
    wide.extend();
    wide.extend();
    assert_eq!(wide.capacity(), 80);
    for word in &words {
        grows.insert(word);
        wide.insert(word);
    }
    assert_eq!(wide.capacity(), 80);
    assert_eq!(grows.capacity(), 40);
    assert_eq!(grows.len(), 25);
    assert_eq!(wide.len(), 25);
    let mut a: Vec<(String, usize)> =
        grows.entries().into_iter().map(|e| (e.key, e.value)).collect();
    let mut b: Vec<(String, usize)> =
        wide.entries().into_iter().map(|e| (e.key, e.value)).collect();
    a.sort();
    b.sort();
    assert_eq!(a, b);
}

#[test]
fn occupied_count_never_exceeds_capacity() {
    let mut table = HashTable::new();
    for i in 0..200 {
        let was_full = table.len() >= table.capacity();
        let capacity = table.capacity();
        table.insert(&format!("w{}", i % 90));
        assert!(table.len() <= table.capacity());
        assert_eq!(table.capacity(), if was_full { 2 * capacity } else { capacity });
    }
    assert_eq!(table.len(), 90);
    assert_eq!(table.capacity(), 160);
}

#[test]
fn table_agrees_with_a_map_on_many_words() {
    let mut table = HashTable::new();
    let mut map: std::collections::HashMap<String, usize> = std::collections::HashMap::new();
    let mut state: u64 = 12345;
    for _ in 0..20000 {
        state = state.wrapping_mul(6364136223846793005).wrapping_add(1442695040888963407);
        let word = format!("w{}", (state >> 33) % 3000);
        table.insert(&word);
        *map.entry(word).or_insert(0) += 1;
        assert!(table.len() <= table.capacity());
    }
    assert_eq!(table.len(), map.len());
    let entries = table.entries();
    assert_eq!(entries.len(), map.len());
    for entry in &entries {
        assert_eq!(map.get(&entry.key), Some(&entry.value));
    }
    let total: usize = entries.iter().map(|e| e.value).sum();
    assert_eq!(total, 20000);
    // Ten slots doubled until they hold the distinct words.
    let mut capacity = 10;
    while capacity < map.len() {
        capacity *= 2;
    }
    assert_eq!(table.capacity(), capacity);
}
