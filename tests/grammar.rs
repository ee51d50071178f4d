use formal_grammar::{Alphabet, Grammar, GrammarError, Productions, Word};
use std::collections::HashSet;

fn alphabet_from_vec(symbols: Vec<char>) -> Alphabet {
    let mut alphabet = Alphabet::new();
    for c in symbols {
        alphabet.insert(&c);
    }
    alphabet
}

fn symbol_set(alphabet: &Alphabet) -> HashSet<char> {
    alphabet.symbols().into_iter().collect()
}

fn an_bn_rules() -> Productions {
    let mut productions = Productions::new();
    productions.insert(&Word::from("S"), &vec![Word::from("N")]);
    productions.insert(&Word::from("N"), &vec![Word::from("aNb"), Word::from("ab")]);
    productions
}

fn an_bn_grammar() -> Grammar {
    let terminal = alphabet_from_vec(vec!['a', 'b']);
    let non_term = alphabet_from_vec(vec!['S', 'N']);
    Grammar::new(&non_term, &terminal, 'S', an_bn_rules()).unwrap()
}

#[test]
fn test_alphabet() {
    let mut alphabet = Alphabet::new();
    assert!(alphabet.is_empty());

    let c = 'a';
    alphabet.insert(&c);
    assert!(alphabet.contains(&c));

    alphabet.delete(&c);
    assert!(!alphabet.contains(&c));

    alphabet.insert(&c);
    alphabet.insert(&c);
    assert_eq!(alphabet.len(), 1);

    alphabet.delete(&c);
    assert!(alphabet.is_empty());

    let alphabet = alphabet_from_vec(vec!['a', 'b', 'c']);
    assert_eq!(symbol_set(&alphabet), HashSet::<char>::from(['a', 'b', 'c']));

    let lh = alphabet_from_vec(vec!['b', 'c', 'd', 'e']);
    let rh = alphabet_from_vec(vec!['a', 'b', 'c']);
    let inter = lh.intersection(&rh);

    assert_eq!(inter, alphabet_from_vec(vec!['b', 'c']));

    let lh = alphabet_from_vec(vec!['b', 'c', 'd', 'e']);
    let rh = alphabet_from_vec(vec!['a', 'b', 'F']);
    let union = lh.union(&rh);

    assert_eq!(union, alphabet_from_vec(vec!['a', 'b', 'c', 'd', 'e', 'F']));
}

#[test]
fn test_word() {
    let alphabet = alphabet_from_vec(vec!['a', 'b', 'c']);
    let word: Word = Word::from(String::from("abc"));

    assert_eq!(word.alphabet_checker(&alphabet), true);

    let alphabet = alphabet_from_vec(vec!['a', 'b']);
    let word: Word = Word::from("abc");

    assert_eq!(word.alphabet_checker(&alphabet), false);
}

#[test]
fn gram() {
    let terminal = alphabet_from_vec(vec!['a', 'b']);
    let non_term = alphabet_from_vec(vec!['S', 'N']);
    let mut productions = Productions::new();
    productions.insert(&Word::from("S"), &vec![Word::from("N")]);
    productions.insert(&Word::from("N"), &vec![Word::from("aNb"), Word::from("ab")]);

    let built = Grammar::new(&non_term, &terminal, 'S', productions);
    println!("{:?}", built);
    assert!(built.is_ok());

    let terminal = alphabet_from_vec(vec!['a', 'b']);
    let non_term = alphabet_from_vec(vec!['S', 'N']);
    let mut productions = Productions::new();
    productions.insert(&Word::from("S"), &vec![Word::from("N"), Word::from("e")]);
    productions.insert(&Word::from("N"), &vec![Word::from("aNb"), Word::from("ab")]);

    let built = Grammar::new(&non_term, &terminal, 'S', productions);
    println!("{:?}", built);
    assert_eq!(built.unwrap_err(), GrammarError::UnboundSymbolInProduction);
}

#[test]
fn union_and_intersection_commute() {
    let a = alphabet_from_vec(vec!['x', 'y', 'z']);
    let b = alphabet_from_vec(vec!['y', 'q']);
    assert_eq!(a.union(&b), b.union(&a));
    assert_eq!(a.intersection(&b), b.intersection(&a));
    assert_eq!(symbol_set(&a.intersection(&b)), HashSet::from(['y']));
    assert_eq!(symbol_set(&a.union(&b)), HashSet::from(['x', 'y', 'z', 'q']));
}

#[test]
fn union_and_intersection_idempotent() {
    let a = alphabet_from_vec(vec!['m', 'n', 'o']);
    assert_eq!(a.union(&a), a);
    assert_eq!(a.intersection(&a), a);
    let empty = Alphabet::new();
    assert_eq!(empty.union(&empty), empty);
    assert!(empty.intersection(&a).is_empty());
}

#[test]
fn insert_then_delete_restores_absent_symbol() {
    let original = alphabet_from_vec(vec!['a', 'b']);
    let mut s = alphabet_from_vec(vec!['a', 'b']);
    s.insert(&'c');
    assert!(s.contains(&'c'));
    assert_eq!(s.len(), 3);
    s.delete(&'c');
    assert_eq!(s, original);
    s.delete(&'z');
    assert_eq!(s, original);
    assert_eq!(s.len(), 2);
}

#[test]
fn alphabet_equality_ignores_insertion_order() {
    assert_eq!(alphabet_from_vec(vec!['a', 'b', 'c']), alphabet_from_vec(vec!['c', 'a', 'b']));
    assert_ne!(alphabet_from_vec(vec!['a', 'b']), alphabet_from_vec(vec!['a', 'b', 'c']));
    assert_ne!(alphabet_from_vec(vec!['a', 'b', 'c']), alphabet_from_vec(vec!['a', 'b']));
}

#[test]
fn empty_word_is_covered() {
    assert!(Word::from("").alphabet_checker(&Alphabet::new()));
    assert!(Word::from("").alphabet_checker(&alphabet_from_vec(vec!['a'])));
    assert!(!Word::from("a").alphabet_checker(&Alphabet::new()));
}

#[test]
fn word_equality_is_by_content() {
    assert_eq!(Word::from("aNb"), Word::from(String::from("aNb")));
    assert_ne!(Word::from("aNb"), Word::from("abN"));
}

#[test]
fn productions_coverage() {
    let rules = an_bn_rules();
    assert!(rules.alphabet_checker(&alphabet_from_vec(vec!['S', 'N', 'a', 'b'])));
    assert!(!rules.alphabet_checker(&alphabet_from_vec(vec!['S', 'N', 'a'])));
    assert!(!rules.alphabet_checker(&alphabet_from_vec(vec!['N', 'a', 'b'])));
    assert!(Productions::new().alphabet_checker(&Alphabet::new()));
}

#[test]
fn balanced_grammar_is_built() {
    let terminal = alphabet_from_vec(vec!['a', 'b']);
    let non_term = alphabet_from_vec(vec!['S', 'N']);
    assert!(Grammar::new(&non_term, &terminal, 'S', an_bn_rules()).is_ok());
}

#[test]
fn unbound_symbol_is_rejected() {
    let terminal = alphabet_from_vec(vec!['a', 'b']);
    let non_term = alphabet_from_vec(vec!['S', 'N']);
    let mut productions = an_bn_rules();
    productions.insert(&Word::from("S"), &vec![Word::from("N"), Word::from("e")]);
    let built = Grammar::new(&non_term, &terminal, 'S', productions);
    assert_eq!(built.unwrap_err(), GrammarError::UnboundSymbolInProduction);
}

#[test]
fn overlapping_alphabets_are_rejected() {
    let non_term = alphabet_from_vec(vec!['S']);
    let terminal = alphabet_from_vec(vec!['S']);
    let built = Grammar::new(&non_term, &terminal, 'S', Productions::new());
    assert_eq!(built.unwrap_err(), GrammarError::DisjointAlphabetViolation);
}

#[test]
fn start_outside_non_terminals_is_rejected() {
    let terminal = alphabet_from_vec(vec!['a', 'b']);
    let non_term = alphabet_from_vec(vec!['S', 'N']);
    let built = Grammar::new(&non_term, &terminal, 'Z', an_bn_rules());
    assert_eq!(built.unwrap_err(), GrammarError::InvalidStartSymbol);
}

#[test]
fn start_in_terminals_only_is_rejected() {
    let terminal = alphabet_from_vec(vec!['a', 'b']);
    let non_term = alphabet_from_vec(vec!['S', 'N']);
    let built = Grammar::new(&non_term, &terminal, 'a', an_bn_rules());
    assert_eq!(built.unwrap_err(), GrammarError::InvalidStartSymbol);
}

#[test]
fn construction_checks_are_ordered() {
    let non_term = alphabet_from_vec(vec!['S', 'a']);
    let terminal = alphabet_from_vec(vec!['a']);
    let mut productions = Productions::new();
    productions.insert(&Word::from("S"), &vec![Word::from("e")]);
    let built = Grammar::new(&non_term, &terminal, 'Z', productions);
    assert_eq!(built.unwrap_err(), GrammarError::DisjointAlphabetViolation);

    let non_term = alphabet_from_vec(vec!['S']);
    let terminal = alphabet_from_vec(vec!['a']);
    let mut productions = Productions::new();
    productions.insert(&Word::from("S"), &vec![Word::from("e")]);
    let built = Grammar::new(&non_term, &terminal, 'Z', productions);
    assert_eq!(built.unwrap_err(), GrammarError::InvalidStartSymbol);
}

#[test]
fn derivation_steps() {
    let g = an_bn_grammar();
    assert_eq!(g.apply(&Word::from("S"), 0, "S"), Ok(String::from("N")));
    assert_eq!(g.apply(&Word::from("N"), 1, "N"), Ok(String::from("ab")));
    assert_eq!(g.apply(&Word::from("N"), 0, "ab"), Ok(String::from("ab")));
    assert_eq!(g.apply(&Word::from("N"), 0, "N"), Ok(String::from("aNb")));
    assert_eq!(g.apply(&Word::from("N"), 0, "aNb"), Ok(String::from("aaNbb")));
}

#[test]
fn apply_replaces_only_leftmost_occurrence() {
    let g = an_bn_grammar();
    assert_eq!(g.apply(&Word::from("N"), 1, "xNyNz"), Ok(String::from("xabyNz")));
    assert_eq!(g.apply(&Word::from("N"), 0, "NN"), Ok(String::from("aNbN")));
    assert_eq!(g.apply(&Word::from("S"), 0, ""), Ok(String::new()));
}

#[test]
fn apply_reports_unknown_key() {
    let g = an_bn_grammar();
    assert_eq!(g.apply(&Word::from("a"), 0, "a"), Err(GrammarError::UnknownProductionKey));
}

#[test]
fn apply_reports_index_out_of_range() {
    let g = an_bn_grammar();
    assert_eq!(g.apply(&Word::from("N"), 2, "N"), Err(GrammarError::AlternativeIndexOutOfRange));
    assert_eq!(g.apply(&Word::from("S"), 1, "S"), Err(GrammarError::AlternativeIndexOutOfRange));
}

#[test]
fn apply_with_key_as_alternative_is_identity() {
    let terminal = alphabet_from_vec(vec!['a']);
    let non_term = alphabet_from_vec(vec!['S']);
    let mut productions = Productions::new();
    productions.insert(&Word::from("S"), &vec![Word::from("S"), Word::from("aSa")]);
    let g = Grammar::new(&non_term, &terminal, 'S', productions).unwrap();
    assert_eq!(g.apply(&Word::from("S"), 0, "aSaSa"), Ok(String::from("aSaSa")));
    assert_eq!(g.apply(&Word::from("S"), 1, "aSaSa"), Ok(String::from("aaSaaSa")));
}

#[test]
fn multi_symbol_key() {
    let terminal = alphabet_from_vec(vec!['a', 'b']);
    let non_term = alphabet_from_vec(vec!['S', 'N']);
    let mut productions = Productions::new();
    productions.insert(&Word::from("SN"), &vec![Word::from("b")]);
    let g = Grammar::new(&non_term, &terminal, 'S', productions).unwrap();
    assert_eq!(g.apply(&Word::from("SN"), 0, "aSSNa"), Ok(String::from("aSba")));
    assert_eq!(g.apply(&Word::from("SN"), 0, "NS"), Ok(String::from("NS")));
}

#[test]
fn later_insert_replaces_alternatives() {
    let terminal = alphabet_from_vec(vec!['a', 'b']);
    let non_term = alphabet_from_vec(vec!['S']);
    let mut productions = Productions::new();
    productions.insert(&Word::from("S"), &vec![Word::from("a"), Word::from("b")]);
    productions.insert(&Word::from("S"), &vec![Word::from("b")]);
    let g = Grammar::new(&non_term, &terminal, 'S', productions).unwrap();
    assert_eq!(g.apply(&Word::from("S"), 0, "S"), Ok(String::from("b")));
    assert_eq!(g.apply(&Word::from("S"), 1, "S"), Err(GrammarError::AlternativeIndexOutOfRange));
}

#[test]
fn non_ascii_symbols() {
    let terminal = alphabet_from_vec(vec!['α', 'β']);
    let non_term = alphabet_from_vec(vec!['Σ']);
    let mut productions = Productions::new();
    productions.insert(&Word::from("Σ"), &vec![Word::from("αΣβ")]);
    let g = Grammar::new(&non_term, &terminal, 'Σ', productions).unwrap();
    assert_eq!(g.apply(&Word::from("Σ"), 0, "αΣβ"), Ok(String::from("ααΣββ")));
}
