use bktree::{
    aligned_distance, levenshtein_distance, AlignedDistance, BkTree, Distance, HammingDistance,
    LevenshteinDistance,
};

fn words() -> Vec<&'static str> {
    vec!["book", "books", "boo", "boon", "cook", "cake", "cape", "cart"]
}

#[test]
fn levenshtein_distance_test() {
    let mut bk = BkTree::new(LevenshteinDistance);
    bk.insert_all(vec![
        "book", "books", "boo", "boon", "cook", "cake", "cape", "cart",
    ]);
    let (words, dists): (Vec<&str>, Vec<isize>) = bk.find("bo", 2).into_iter().unzip();
    assert_eq!(words, ["book", "boo", "boon"]);
    assert_eq!(dists, [2, 1, 2]);
}

#[test]
fn hamming_distance_test() {
    let mut bk = BkTree::new(HammingDistance);
    bk.insert_all(vec![0, 4, 5, 14, 15]);

    let (words, dists): (Vec<i32>, Vec<isize>) = bk.find(13, 1).into_iter().unzip();
    assert_eq!(words, [5, 15]);
    assert_eq!(dists, [1, 1]);
}

#[test]
fn iterators_test() {
    let mut bk = BkTree::new(HammingDistance);
    bk.insert_all(vec![0, 4, 5, 14, 15]);

    let iter_res: Vec<&i32> = bk.iter().collect();
    assert_eq!(iter_res, [&0, &15, &14, &5, &4]);
    let intoiter_res: Vec<i32> = bk.into_iter().collect();
    assert_eq!(intoiter_res, [0, 15, 14, 5, 4]);
}

#[test]
fn exact_and_fuzzy_search() {
    let mut bk = BkTree::new(LevenshteinDistance);
    bk.insert_all(words());
    for word in &words() {
        let (word_list, dist_list): (Vec<&str>, Vec<isize>) =
            bk.find(word, 0).into_iter().unzip();
        assert_eq!(word_list, vec![*word]);
        assert_eq!(dist_list, vec![0]);
    }
    let (word_list, dist_list): (Vec<&str>, Vec<isize>) = bk.find("ca", 3).into_iter().unzip();
    assert_eq!(word_list, vec!["cake", "boo", "cape", "cart", "cook"]);
    assert_eq!(dist_list, vec![2, 3, 2, 2, 3]);
    let (word_list, dist_list): (Vec<&str>, Vec<isize>) =
        bk.find("not here", 0).into_iter().unzip();
    assert!(word_list.is_empty());
    assert!(dist_list.is_empty());
}

#[test]
fn levenshtein_known_values() {
    assert_eq!(levenshtein_distance("book", "boo"), 1);
    assert_eq!(levenshtein_distance("book", "cook"), 1);
    assert_eq!(levenshtein_distance("", "abc"), 3);
    assert_eq!(levenshtein_distance("abc", ""), 3);
    assert_eq!(levenshtein_distance("abc", "abc"), 0);
    assert_eq!(levenshtein_distance("kitten", "sitting"), 3);
    assert_eq!(levenshtein_distance("flaw", "lawn"), 2);
    assert_eq!(LevenshteinDistance.distance(&"book", &"books"), 1);
    let a = String::from("cake");
    let b = String::from("cart");
    assert_eq!(LevenshteinDistance.distance(&a, &b), 2);
}

#[test]
fn levenshtein_counts_characters_not_bytes() {
    assert_eq!(levenshtein_distance("héllo", "hello"), 1);
    assert_eq!(levenshtein_distance("日本", "日本語"), 1);
    assert_eq!(levenshtein_distance("ü", ""), 1);
}

#[test]
fn metrics_identity_and_symmetry() {
    let pairs = [("book", "cook"), ("", "abc"), ("kitten", "sitting"), ("ab", "ba")];
    for (a, b) in pairs.iter() {
        assert_eq!(levenshtein_distance(a, a), 0);
        assert_eq!(levenshtein_distance(a, b), levenshtein_distance(b, a));
    }
    let nums: [i32; 5] = [0, 13, 15, -1, i32::MAX];
    for a in nums.iter() {
        assert_eq!(HammingDistance.distance(a, a), 0);
        for b in nums.iter() {
            assert_eq!(HammingDistance.distance(a, b), HammingDistance.distance(b, a));
        }
    }
}

#[test]
fn hamming_known_values() {
    assert_eq!(HammingDistance.distance(&0b1101i32, &0b1111i32), 1);
    assert_eq!(HammingDistance.distance(&0i32, &0i32), 0);
    assert_eq!(HammingDistance.distance(&0i32, &-1i32), 32);
    assert_eq!(HammingDistance.distance(&0i64, &-1i64), 64);
    assert_eq!(HammingDistance.distance(&0u32, &u32::MAX), 32);
    assert_eq!(HammingDistance.distance(&u64::MAX, &0u64), 64);
    assert_eq!(HammingDistance.distance(&6u64, &9u64), 4);
}

#[test]
fn duplicate_insert_is_stored_once() {
    let mut bk = BkTree::new(LevenshteinDistance);
    bk.insert("book");
    bk.insert("book");
    bk.insert("cook");
    bk.insert("cook");
    assert_eq!(bk.find("book", 0), vec![(&"book", 0)]);
    assert_eq!(bk.find("cook", 0), vec![(&"cook", 0)]);
    assert_eq!(bk.iter().collect().len(), 2);
}

#[test]
fn find_on_empty_tree() {
    let bk: BkTree<&str, LevenshteinDistance> = BkTree::new(LevenshteinDistance);
    assert!(bk.find("anything", 0).is_empty());
    assert!(bk.find("anything", 100).is_empty());
    let bk2: BkTree<u64, HammingDistance> = BkTree::new(HammingDistance);
    assert!(bk2.find(7, 64).is_empty());
    assert!(bk2.iter().collect().is_empty());
}

#[test]
fn negative_bound_finds_nothing() {
    let mut bk = BkTree::new(LevenshteinDistance);
    bk.insert_all(words());
    assert!(bk.find("book", -1).is_empty());
}

#[test]
fn find_is_sound_and_complete() {
    let mut bk = BkTree::new(LevenshteinDistance);
    bk.insert_all(words());
    for query in ["bo", "ca", "xyz", "books", ""].iter() {
        for max in 0..6isize {
            let found = bk.find(query, max);
            for (w, d) in found.iter() {
                assert!(*d <= max);
                assert_eq!(*d, levenshtein_distance(w, query));
            }
            for w in words().iter() {
                let d = levenshtein_distance(w, query);
                if d <= max {
                    assert!(found.contains(&(w, d)));
                }
            }
        }
    }
}

#[test]
fn traversal_yields_every_item_once() {
    let mut bk = BkTree::new(LevenshteinDistance);
    bk.insert_all(words());
    bk.insert("book");
    let mut seen: Vec<&str> = bk.iter().collect().into_iter().copied().collect();
    seen.sort();
    let mut expected = words();
    expected.sort();
    assert_eq!(seen, expected);

    let mut it = bk.iter();
    let mut count = 0;
    while it.next().is_some() {
        count += 1;
    }
    assert_eq!(count, 8);

    let mut owned = bk.into_iter();
    let first = owned.next();
    assert_eq!(first, Some("book"));
    assert_eq!(owned.collect().len(), 7);
}

#[test]
fn hamming_tree_of_u64() {
    let mut bk = BkTree::new(HammingDistance);
    bk.insert_all(vec![0u64, 1, 3, 7, 15, 255]);
    let (items, dists): (Vec<u64>, Vec<isize>) = bk.find(2, 1).into_iter().unzip();
    assert_eq!(items, vec![0, 3]);
    assert_eq!(dists, vec![1, 1]);
}

#[test]
fn string_items() {
    let mut bk = BkTree::new(LevenshteinDistance);
    bk.insert(String::from("hello"));
    bk.insert(String::from("help"));
    bk.insert(String::from("world"));
    let found = bk.find(String::from("hell"), 1);
    assert_eq!(found.len(), 2);
    assert_eq!(found[0], (&String::from("hello"), 1));
    assert_eq!(found[1], (&String::from("help"), 1));
}

#[test]
fn aligned_measure_values() {
    assert_eq!(aligned_distance("book", "boo"), 1);
    assert_eq!(aligned_distance("book", "cook"), 1);
    assert_eq!(aligned_distance("bo", "cake"), 4);
    assert_eq!(aligned_distance("abc", "abc"), 0);
    assert_eq!(aligned_distance("", "abc"), 3);
    assert_eq!(aligned_distance("é", "e"), 2);
    let a = String::from("cape");
    let b = String::from("cart");
    assert_eq!(AlignedDistance.distance(&a, &b), 2);
}

#[test]
fn aligned_measure_tree() {
    let mut bk = BkTree::new(AlignedDistance);
    for word in ["book", "books", "boo", "boon", "cook", "cake", "cape", "cart"] {
        bk.insert(word.to_string());
    }
    let found: Vec<&String> = bk.find("bo".into(), 2).into_iter().map(|(w, _)| w).collect();
    assert_eq!(found, vec![&String::from("book"), &String::from("boo"), &String::from("boon")]);
}

#[test]
fn traversals_agree() {
    let mut bk = BkTree::new(LevenshteinDistance);
    bk.insert_all(words());
    let first: Vec<&str> = bk.iter().collect().into_iter().copied().collect();
    let second: Vec<&str> = bk.iter().collect().into_iter().copied().collect();
    assert_eq!(first, second);
    assert_eq!(first, vec!["book", "cake", "cart", "cape", "books", "boo", "cook", "boon"]);
    let owned: Vec<&str> = bk.into_iter().collect();
    assert_eq!(owned, first);
}

#[test]
fn repeated_insert_keeps_tree_with_rough_measure() {
    let mut bk = BkTree::new(AlignedDistance);
    for word in ["book", "books", "boo", "boon", "cook"] {
        bk.insert(word.to_string());
    }
    let before: Vec<String> = bk.iter().collect().into_iter().cloned().collect();
    bk.insert("boon".to_string());
    bk.insert("boon".to_string());
    let after: Vec<String> = bk.iter().collect().into_iter().cloned().collect();
    assert_eq!(before, after);
}

#[test]
fn hamming_small_and_pointer_sized_types() {
    assert_eq!(HammingDistance.distance(&0u8, &255u8), 8);
    assert_eq!(HammingDistance.distance(&0i8, &-1i8), 8);
    assert_eq!(HammingDistance.distance(&0u16, &u16::MAX), 16);
    assert_eq!(HammingDistance.distance(&0i16, &-1i16), 16);
    assert_eq!(HammingDistance.distance(&5usize, &6usize), 2);
    assert_eq!(HammingDistance.distance(&0isize, &-1isize), isize::BITS as isize);
}
