use animal_matcher::engine::find_animals;
use animal_matcher::engine::inputs_fit;
use animal_matcher::engine::run;
use animal_matcher::engine::EngineError;

#[test]
fn name_is_animal() {
    let name = vec!["cattle".to_string()];
    let animals = "aardvark\nbat\ncat\ncattle\ncheetah\ndog\nwombat".to_string();
    let matches = find_animals(&name, &animals);

    println!("{}", &name[0]);
    println!("{:?}", matches);

    assert!(matches.contains(&"CATTLE".to_string()));
}

#[test]
fn animal_contains_name() {
    let name = vec!["cat".to_string()];
    let animals = "aardvark\nbat\ncat\ncattle\ncheetah\ndog\nwombat".to_string();
    let matches = find_animals(&name, &animals);

    println!("{}", &name[0]);
    println!("{:?}", matches);

    assert!(matches.contains(&"CAT".to_string()));
}

#[test]
fn partial_name() {
    let name = vec!["cat".to_string()];
    let animals = "aardvark\nbat\ncat\ncattle\ncheetah\ndog\nwombat".to_string();
    let matches = find_animals(&name, &animals);

    println!("{:?}", name);
    println!("{:?}", matches);

    // Find all animals with a c
    let mut results = Vec::new();
    for animal in animals.lines() {
        if animal.contains('c') {
            results.push(animal.to_string());
        }
    }

    let mut matches_comp = Vec::new();
    for word in matches {
        matches_comp.push(word.to_lowercase());
    }
    matches_comp.sort();
    results.sort();

    assert_eq!(results, matches_comp);
}

#[test]
fn multiple_partial_names() {
    let names = vec!["weird".to_string(), "batter".to_string()];
    let animals = "aardvark\nbat\ncat\ncattle\ncheetah\ndog\nwombat".to_string();
    let matches = find_animals(&names, &animals);

    println!("{:?}", names);
    println!("{:?}", matches);

    assert!(matches.contains(&"WomBAT".to_string()));
}

#[test]
fn test_for_dups() {
    let names = vec!["test".to_string(), "something".to_string()];
    let animals = "aardvark\nbat\ncat\ncattle\ncheetah\ndog\nwombat\nnewt\nstoat\ntermite"
        .to_string();
    let matches = find_animals(&names, &animals);

    let mut seen: Vec<String> = Vec::new();
    for word in matches {
        let lowered = word.to_lowercase();
        assert!(!seen.contains(&lowered));
        seen.push(lowered);
    }
}

#[test]
fn exact_labels_and_order() {
    let name = vec!["cat".to_string()];
    let animals = "cat\ncattle\ndog".to_string();
    let matches = find_animals(&name, &animals);

    assert_eq!(matches, vec!["CAT".to_string(), "CATtle".to_string()]);
}

#[test]
fn substring_containment() {
    let name = vec!["cat".to_string()];
    let animals = "cattle\nbobcat\ndog\nwombat".to_string();
    let matches = find_animals(&name, &animals);

    let mut got: Vec<String> = Vec::new();
    for word in matches {
        got.push(word.to_lowercase());
    }
    got.sort();

    let mut expected = Vec::new();
    for animal in animals.lines() {
        if animal.contains("cat") {
            expected.push(animal.to_string());
        }
    }
    expected.sort();

    assert_eq!(got, expected);
}

#[test]
fn mixed_case_names_match() {
    let name = vec!["CaT".to_string()];
    let animals = "cat\ndog".to_string();
    let matches = find_animals(&name, &animals);

    assert_eq!(matches, vec!["CAT".to_string()]);
}

#[test]
fn empty_catalog_gives_no_results() {
    let name = vec!["cat".to_string()];
    let animals = "".to_string();
    let matches = find_animals(&name, &animals);

    assert!(matches.is_empty());
}

#[test]
fn run_rejects_empty_name_list() {
    let names: Vec<String> = Vec::new();
    let animals = "cat\ndog".to_string();
    let res = run(&names, &animals);

    assert!(matches!(res, Err(EngineError::InvalidInput)));
}

#[test]
fn run_rejects_empty_name() {
    let names = vec!["cat".to_string(), "".to_string()];
    let animals = "cat\ndog".to_string();
    let res = run(&names, &animals);

    assert!(matches!(res, Err(EngineError::InvalidInput)));
}

#[test]
fn run_returns_ranked_labels() {
    let names = vec!["cat".to_string()];
    let animals = "cat\ncattle\ndog".to_string();
    let res = run(&names, &animals).unwrap();

    assert_eq!(res, vec!["CAT".to_string(), "CATtle".to_string()]);
}

#[test]
fn engine_is_deterministic() {
    let names = vec!["weird".to_string(), "batter".to_string()];
    let animals = "wombat\nbat\ncat".to_string();
    let first = find_animals(&names, &animals);
    let second = find_animals(&names, &animals);

    assert_eq!(first, second);
}

#[test]
fn small_inputs_fit() {
    let names = vec!["cat".to_string()];
    let animals = "cat\ncattle\ndog".to_string();

    assert!(inputs_fit(&names, &animals));
}
