use letter_boxed::graph::generate_graph;
use letter_boxed::letterbox::LetterBox;
use letter_boxed::rank::{format_solutions, rank_solutions};
use letter_boxed::search::{find_all_solutions, find_solutions, is_valid_solution};
use letter_boxed::trie::build_trie;

fn strings(words: &[&str]) -> Vec<String> {
    words.iter().map(|w| String::from(*w)).collect()
}

#[test]
fn same_side_word_is_excluded() {
    // "cat" has all three letters on the top side, so it can never be
    // played; "tot" alternates sides and is legal.
    let trie = build_trie(&strings(&["cat", "tiger", "rat", "tot"]));
    let lb = LetterBox::new(
        &String::from("cat"),
        &String::from("rig"),
        &String::from("oen"),
        &String::from("bdh"),
    );
    let valid = trie.find_valid_words(&lb);
    assert!(!valid.iter().any(|w| w == "cat"));
    assert!(!valid.iter().any(|w| w == "tiger"));
    assert!(!valid.iter().any(|w| w == "rat"));
    assert!(valid.iter().any(|w| w == "tot"));
}

#[test]
fn empty_dictionary_gives_empty_output() {
    let trie = build_trie(&Vec::new());
    let lb = LetterBox::new(
        &String::from("abc"),
        &String::from("def"),
        &String::from("ghi"),
        &String::from("jkl"),
    );
    let valid = trie.find_valid_words(&lb);
    assert_eq!(valid.len(), 0);
    let adj = generate_graph(&valid);
    assert_eq!(adj.nodes.len(), 0);
    let sols = find_all_solutions(&adj);
    assert_eq!(sols.len(), 0);
    let ranked = rank_solutions(&sols, sols.len());
    assert_eq!(format_solutions(&ranked), String::from(""));
}

#[test]
fn lone_pangram_word_has_no_two_word_solution() {
    // One word using each of the twelve letters once, with no chain
    // partner: the minimum chain length is two, so nothing is found.
    let trie = build_trie(&strings(&["adgjbehkcfil"]));
    let lb = LetterBox::new(
        &String::from("abc"),
        &String::from("def"),
        &String::from("ghi"),
        &String::from("jkl"),
    );
    let valid = trie.find_valid_words(&lb);
    assert!(valid.iter().any(|w| w == "adgjbehkcfil"));
    let adj = generate_graph(&valid);
    let sols = find_solutions(&adj, 2);
    assert_eq!(sols.len(), 0);
}

#[test]
fn graph_edges_join_last_letter_to_first() {
    let words = strings(&["cat", "tot", "tat"]);
    let adj = generate_graph(&words);
    assert_eq!(adj.nodes.len(), 3);
    for x in 0..adj.nodes.len() {
        for t in 0..adj.edges[x].len() {
            let j = adj.edges[x][t];
            let a = &adj.nodes[x];
            let b = &adj.nodes[j];
            assert_ne!(a, b);
            assert_eq!(a.chars().last(), b.chars().next());
        }
    }
    let cat = adj.nodes.iter().position(|w| w == "cat").unwrap();
    let tot = adj.nodes.iter().position(|w| w == "tot").unwrap();
    let tat = adj.nodes.iter().position(|w| w == "tat").unwrap();
    assert!(adj.edges[cat].contains(&tot));
    assert!(adj.edges[cat].contains(&tat));
    assert!(adj.edges[tot].contains(&tat));
    assert!(!adj.edges[tot].contains(&cat));
    assert!(!adj.edges[tat].contains(&cat));
}

#[test]
fn two_word_chain_covering_all_letters_is_found() {
    let trie = build_trie(&strings(&["adgjbehk", "kcfil"]));
    let lb = LetterBox::new(
        &String::from("abc"),
        &String::from("def"),
        &String::from("ghi"),
        &String::from("jkl"),
    );
    let valid = trie.find_valid_words(&lb);
    assert!(valid.iter().any(|w| w == "adgjbehk"));
    assert!(valid.iter().any(|w| w == "kcfil"));
    let adj = generate_graph(&valid);
    let sols = find_solutions(&adj, 2);
    assert!(sols.iter().any(|p| p.len() == 2 && p[0] == "adgjbehk" && p[1] == "kcfil"));
    for p in &sols {
        assert_eq!(p.len(), 2);
        assert!(is_valid_solution(p));
    }
    let all = find_all_solutions(&adj);
    assert!(all.iter().any(|p| p.len() == 2 && p[0] == "adgjbehk" && p[1] == "kcfil"));
    let ranked = rank_solutions(&all, all.len());
    assert!(format_solutions(&ranked).contains("adgjbehk kcfil"));
}

#[test]
fn letter_count_filter_requires_exactly_twelve() {
    // eleven distinct letters: not a solution
    let p11 = strings(&["abcdefg", "ghijk"]);
    assert!(!is_valid_solution(&p11));
    // twelve distinct letters: a solution
    let p12 = strings(&["abcdefg", "ghijkl"]);
    assert!(is_valid_solution(&p12));
    // thirteen distinct letters: not a solution
    let p13 = strings(&["abcdefg", "ghijklm"]);
    assert!(!is_valid_solution(&p13));
}

#[test]
fn ranking_is_stable_and_idempotent() {
    let a = strings(&["ab", "bc", "cd"]);
    let b = strings(&["xy", "yz"]);
    let c = strings(&["pq", "qr", "rs"]);
    let d = strings(&["mn", "no"]);
    let sols = vec![a.clone(), b.clone(), c.clone(), d.clone()];
    let ranked = rank_solutions(&sols, 4);
    // two-word chains first, keeping their relative input order
    assert_eq!(ranked, vec![b.clone(), d.clone(), a.clone(), c.clone()]);
    let again = rank_solutions(&ranked, 4);
    assert_eq!(again, ranked);
    // truncation keeps the best ones
    let top = rank_solutions(&sols, 2);
    assert_eq!(top, vec![b, d]);
}

#[test]
fn format_joins_words_and_lines() {
    let sols = vec![strings(&["ab", "bc"]), strings(&["cd"])];
    assert_eq!(format_solutions(&sols), String::from("ab bc\ncd"));
}

#[test]
fn letterbox_collects_distinct_letters() {
    let lb = LetterBox::new(
        &String::from("cat"),
        &String::from("rig"),
        &String::from("oen"),
        &String::from("bdh"),
    );
    assert_eq!(lb.letters.len(), 12);
    for c in "catrigoenbdh".chars() {
        assert!(lb.letters.contains(&c));
    }
    let small = LetterBox::new(
        &String::from("aa"),
        &String::from("ab"),
        &String::from(""),
        &String::from("b"),
    );
    assert_eq!(small.letters.len(), 2);
}
